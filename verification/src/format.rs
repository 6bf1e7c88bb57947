//! The gloss file format: a versioned header, then one row per line, where a
//! row is either a record (an explanation of an edit hunk) or an opaque line
//! that is kept byte for byte.

use vstd::prelude::*;
use crate::edit_id::{edit_id_text, parse_edit_id, uuid_parse, uuid_text};
use crate::error::{
    display_path, error_of, invalid_in, with_file, with_edit, ErrorCode, ErrorView, GlossError,
};
use crate::text::{
    chars_of, dec, eq_chars, eq_str, is_token, no_ws, parse_unsigned, parse_unsigned_of, push_all,
    push_dec, push_str, seqs_view, split, split_on, split_once, split_once_on, string_of,
};
use crate::time::{chrono_instant, timestamp, timestamp_parse, timestamp_text, Timestamp};
use crate::round_trip::{
    file_ok, id_round_trips, instant_round_trips, lemma_parse_render, line_reads_back,
    line_view_ok, normalize,
};

verus! {

/// The oldest format version this library reads.
pub const MIN_VERSION: u8 = 1;

/// The newest format version this library reads and writes.
pub const CURRENT_VERSION: u8 = 2;

/// The version that introduced the `labels` and `risk` record fields. The
/// declared file version alone decides a row's field count.
pub const LABELS_VERSION: u8 = 2;

/// Lines `start` to `end` of a source file, both included, counted from 1.
#[derive(Clone, Copy, Debug, PartialEq, Eq, Structural)]
pub struct LineRange {
    pub start: u32,
    pub end: u32,
}

/// The error for a range that does not start at line 1 or later, or ends
/// before it starts.
pub open spec fn range_error(start: u32, end: u32) -> ErrorView {
    with_edit(
        error_of(
            ErrorCode::InvalidRange,
            "invalid line range "@ + dec(start as nat) + ":"@ + dec(end as nat),
        ),
        ""@,
        start,
        end,
    )
}

pub open spec fn line_range_new(start: u32, end: u32) -> Result<LineRange, ErrorView> {
    if start == 0 || end < start {
        Err(range_error(start, end))
    } else {
        Ok(LineRange { start, end })
    }
}

/// `start:end` read as a range.
pub open spec fn line_range_parse(value: Seq<char>) -> Result<LineRange, ErrorView> {
    let bad = error_of(ErrorCode::InvalidRange, "invalid line range "@ + value);
    match split_once(value, ':') {
        None => Err(bad),
        Some((a, b)) => match parse_unsigned(a, u32::MAX as nat) {
            None => Err(bad),
            Some(s) => match parse_unsigned(b, u32::MAX as nat) {
                None => Err(bad),
                Some(e) => line_range_new(s as u32, e as u32),
            },
        },
    }
}

/// The text `start:end` of a range.
pub open spec fn range_text(r: LineRange) -> Seq<char> {
    dec(r.start as nat) + ":"@ + dec(r.end as nat)
}

/// The view of an outcome whose error is a `GlossError`.
pub open spec fn result_view<T>(r: Result<T, GlossError>) -> Result<T, ErrorView> {
    match r {
        Ok(v) => Ok(v),
        Err(e) => Err(e@),
    }
}

fn owned(s: &str) -> (r: String)
    ensures
        r@ == s@,
{
    s.to_owned()
}

impl LineRange {
    pub open spec fn valid(self) -> bool {
        self.start >= 1 && self.end >= self.start
    }

    pub fn new(start: u32, end: u32) -> (r: Result<LineRange, GlossError>)
        ensures
            result_view(r) == line_range_new(start, end),
    {
        if start == 0 || end < start {
            let mut m: Vec<char> = Vec::new();
            push_str(&mut m, "invalid line range ");
            push_dec(&mut m, start as u64);
            push_str(&mut m, ":");
            push_dec(&mut m, end as u64);
            return Err(GlossError::new(ErrorCode::InvalidRange, string_of(&m)).edit("", start, end));
        }
        Ok(LineRange { start, end })
    }

    /// Reads `start:end`.
    pub fn parse(value: &str) -> (r: Result<LineRange, GlossError>)
        ensures
            result_view(r) == line_range_parse(value@),
    {
        let chars = chars_of(value);
        parse_range_chars(&chars)
    }

    /// Whether the two ranges share a line.
    pub fn overlaps(&self, other: &Self) -> (b: bool)
        ensures
            b == (self.start <= other.end && other.start <= self.end),
    {
        self.start <= other.end && other.start <= self.end
    }

    /// The text `start:end`.
    pub fn to_text(&self) -> (s: String)
        ensures
            s@ == range_text(*self),
    {
        let mut m: Vec<char> = Vec::new();
        push_range_text(&mut m, *self);
        string_of(&m)
    }
}

fn push_range_text(out: &mut Vec<char>, r: LineRange)
    ensures
        final(out)@ == old(out)@ + range_text(r),
{
    push_dec(out, r.start as u64);
    push_str(out, ":");
    push_dec(out, r.end as u64);
    proof {
        assert(final(out)@ =~= old(out)@ + range_text(r));
    }
}

pub fn parse_range_chars(value: &Vec<char>) -> (r: Result<LineRange, GlossError>)
    ensures
        result_view(r) == line_range_parse(value@),
{
    let bad_message = {
        let mut m: Vec<char> = Vec::new();
        push_str(&mut m, "invalid line range ");
        push_all(&mut m, value);
        string_of(&m)
    };
    match split_once_on(value, ':') {
        None => Err(GlossError::new(ErrorCode::InvalidRange, bad_message)),
        Some((a, b)) => match parse_unsigned_of(&a, u32::MAX) {
            None => Err(GlossError::new(ErrorCode::InvalidRange, bad_message)),
            Some(s) => match parse_unsigned_of(&b, u32::MAX) {
                None => Err(GlossError::new(ErrorCode::InvalidRange, bad_message)),
                Some(e) => LineRange::new(s, e),
            },
        },
    }
}

/// How risky an explained edit is.
#[derive(Clone, Copy, Debug, PartialEq, Eq, Structural)]
pub enum Risk {
    NoRisk,
    Low,
    Medium,
    High,
}

pub open spec fn risk_parse(s: Seq<char>) -> Option<Risk> {
    if s == "none"@ {
        Some(Risk::NoRisk)
    } else if s == "low"@ {
        Some(Risk::Low)
    } else if s == "medium"@ {
        Some(Risk::Medium)
    } else if s == "high"@ {
        Some(Risk::High)
    } else {
        None
    }
}

pub open spec fn risk_text(r: Risk) -> Seq<char> {
    match r {
        Risk::NoRisk => "none"@,
        Risk::Low => "low"@,
        Risk::Medium => "medium"@,
        Risk::High => "high"@,
    }
}

impl Risk {
    /// The lower-case name of the risk.
    pub fn as_str(self) -> (s: &'static str)
        ensures
            s@ == risk_text(self),
    {
        match self {
            Risk::NoRisk => "none",
            Risk::Low => "low",
            Risk::Medium => "medium",
            Risk::High => "high",
        }
    }
}

pub fn risk_of(s: &Vec<char>) -> (r: Option<Risk>)
    ensures
        r == risk_parse(s@),
{
    if eq_str(s, "none") {
        Some(Risk::NoRisk)
    } else if eq_str(s, "low") {
        Some(Risk::Low)
    } else if eq_str(s, "medium") {
        Some(Risk::Medium)
    } else if eq_str(s, "high") {
        Some(Risk::High)
    } else {
        None
    }
}

pub open spec fn lower_or_digit(c: char) -> bool {
    ('a' <= c <= 'z') || ('0' <= c <= '9')
}

pub open spec fn ascii_alnum(c: char) -> bool {
    ('a' <= c <= 'z') || ('0' <= c <= '9') || ('A' <= c <= 'Z')
}

/// One hyphen-separated part of a label: non-empty lower-case letters and digits.
pub open spec fn label_part(p: Seq<char>) -> bool {
    p.len() > 0 && forall|j: int| 0 <= j < p.len() ==> lower_or_digit(#[trigger] p[j])
}

/// A kebab-case label: non-empty parts of lower-case letters and digits,
/// joined by single hyphens.
pub open spec fn valid_label(s: Seq<char>) -> bool {
    s.len() > 0 && forall|j: int| 0 <= j < split(s, '-').len() ==> label_part(
        #[trigger] split(s, '-')[j],
    )
}

/// The labels field of a version 2 record: `-` for none, else comma-separated
/// valid labels, none repeated.
pub open spec fn parse_labels(v: Seq<char>) -> Option<Seq<Seq<char>>> {
    if v == "-"@ {
        Some(seq![])
    } else {
        let ls = split(v, ',');
        if ls.len() == 0 || (exists|j: int| 0 <= j < ls.len() && !valid_label(#[trigger] ls[j]))
            || !ls.no_duplicates() {
            None
        } else {
            Some(ls)
        }
    }
}

/// One group of an attempted UUID: non-empty ASCII letters and digits.
pub open spec fn alnum_group(g: Seq<char>) -> bool {
    g.len() > 0 && forall|j: int| 0 <= j < g.len() ==> ascii_alnum(#[trigger] g[j])
}

/// Whether a body line's first field is an attempted record UUID: five
/// hyphen-separated alphanumeric groups, 32 to 40 characters in all.
pub open spec fn record_shaped(v: Seq<char>) -> bool {
    let g = split(v, '-');
    &&& g.len() == 5
    &&& 32 <= v.len() <= 40
    &&& forall|j: int| 0 <= j < 5 ==> alnum_group(#[trigger] g[j])
}

fn is_lower_or_digit(c: char) -> (b: bool)
    ensures
        b == lower_or_digit(c),
{
    ('a' <= c && c <= 'z') || ('0' <= c && c <= '9')
}

fn is_ascii_alnum(c: char) -> (b: bool)
    ensures
        b == ascii_alnum(c),
{
    ('a' <= c && c <= 'z') || ('0' <= c && c <= '9') || ('A' <= c && c <= 'Z')
}

fn all_lower_or_digit(p: &Vec<char>) -> (b: bool)
    ensures
        b == label_part(p@),
{
    if p.len() == 0 {
        return false;
    }
    let mut i: usize = 0;
    while i < p.len()
        invariant
            i <= p@.len(),
            forall|j: int| 0 <= j < i ==> lower_or_digit(#[trigger] p@[j]),
        decreases p@.len() - i,
    {
        if !is_lower_or_digit(p[i]) {
            return false;
        }
        i = i + 1;
    }
    true
}

fn all_alnum(g: &Vec<char>) -> (b: bool)
    ensures
        b == alnum_group(g@),
{
    if g.len() == 0 {
        return false;
    }
    let mut i: usize = 0;
    while i < g.len()
        invariant
            i <= g@.len(),
            forall|j: int| 0 <= j < i ==> ascii_alnum(#[trigger] g@[j]),
        decreases g@.len() - i,
    {
        if !is_ascii_alnum(g[i]) {
            return false;
        }
        i = i + 1;
    }
    true
}

pub fn is_valid_label(s: &Vec<char>) -> (b: bool)
    ensures
        b == valid_label(s@),
{
    if s.len() == 0 {
        return false;
    }
    let parts = split_on(s, '-');
    let mut i: usize = 0;
    while i < parts.len()
        invariant
            seqs_view(parts@) == split(s@, '-'),
            i <= parts@.len(),
            forall|j: int| 0 <= j < i ==> label_part(#[trigger] split(s@, '-')[j]),
        decreases parts@.len() - i,
    {
        if !all_lower_or_digit(&parts[i]) {
            proof {
                assert(seqs_view(parts@)[i as int] == parts@[i as int]@);
            }
            return false;
        }
        proof {
            assert(seqs_view(parts@)[i as int] == parts@[i as int]@);
        }
        i = i + 1;
    }
    true
}

/// Whether any two entries are equal.
fn has_duplicate(ls: &Vec<Vec<char>>) -> (b: bool)
    ensures
        b == !seqs_view(ls@).no_duplicates(),
{
    let ghost v = seqs_view(ls@);
    let mut i: usize = 0;
    while i < ls.len()
        invariant
            v == seqs_view(ls@),
            i <= ls@.len(),
            forall|a: int, b: int| 0 <= a < b < i ==> v[a] != v[b],
        decreases ls@.len() - i,
    {
        let mut j: usize = 0;
        while j < i
            invariant
                v == seqs_view(ls@),
                i < ls@.len(),
                j <= i,
                forall|a: int, b: int| 0 <= a < b < i ==> v[a] != v[b],
                forall|a: int| 0 <= a < j ==> v[a] != v[i as int],
            decreases i - j,
        {
            if eq_chars(&ls[j], &ls[i]) {
                proof {
                    assert(v[j as int] == ls@[j as int]@);
                    assert(v[i as int] == ls@[i as int]@);
                    assert(v[j as int] == v[i as int]);
                }
                return true;
            }
            j = j + 1;
        }
        i = i + 1;
    }
    false
}

/// The labels field of a version 2 record.
pub fn labels_of(v: &Vec<char>) -> (r: Option<Vec<Vec<char>>>)
    ensures
        match r {
            Some(ls) => parse_labels(v@) == Some(seqs_view(ls@)),
            None => parse_labels(v@) is None,
        },
{
    if eq_str(v, "-") {
        let empty: Vec<Vec<char>> = Vec::new();
        proof {
            assert(seqs_view(empty@) =~= Seq::<Seq<char>>::empty());
        }
        return Some(empty);
    }
    let ls = split_on(v, ',');
    let ghost lv = seqs_view(ls@);
    let mut i: usize = 0;
    while i < ls.len()
        invariant
            lv == seqs_view(ls@),
            lv == split(v@, ','),
            v@ != "-"@,
            i <= ls@.len(),
            forall|j: int| 0 <= j < i ==> valid_label(#[trigger] lv[j]),
        decreases ls@.len() - i,
    {
        if !is_valid_label(&ls[i]) {
            proof {
                assert(lv[i as int] == ls@[i as int]@);
                assert(!valid_label(split(v@, ',')[i as int]));
            }
            return None;
        }
        proof {
            assert(lv[i as int] == ls@[i as int]@);
        }
        i = i + 1;
    }
    if has_duplicate(&ls) {
        return None;
    }
    Some(ls)
}

/// Whether a body line's first field is an attempted record UUID.
pub fn is_record_shaped(v: &Vec<char>) -> (b: bool)
    ensures
        b == record_shaped(v@),
{
    let groups = split_on(v, '-');
    if groups.len() != 5 || v.len() < 32 || v.len() > 40 {
        return false;
    }
    let mut i: usize = 0;
    while i < 5
        invariant
            seqs_view(groups@) == split(v@, '-'),
            groups@.len() == 5,
            i <= 5,
            forall|j: int| 0 <= j < i ==> alnum_group(#[trigger] split(v@, '-')[j]),
        decreases 5 - i,
    {
        if !all_alnum(&groups[i]) {
            proof {
                assert(seqs_view(groups@)[i as int] == groups@[i as int]@);
            }
            return false;
        }
        proof {
            assert(seqs_view(groups@)[i as int] == groups@[i as int]@);
        }
        i = i + 1;
    }
    true
}

/// Whether a value is one non-empty run without whitespace.
pub fn valid_token(v: &Vec<char>) -> (b: bool)
    ensures
        b == is_token(v@),
{
    if v.len() == 0 {
        return false;
    }
    let k = crate::text::find_ws(v, 0);
    proof {
        crate::text::lemma_find_ws(v@, 0);
        if k < v@.len() {
            assert(!no_ws(v@));
        }
    }
    k >= v.len()
}


/// One explanation of an edit hunk.
#[derive(Debug)]
pub struct GlossRecord {
    pub edit_id: u128,
    pub range: LineRange,
    pub timestamp: Timestamp,
    pub user: String,
    pub agent: String,
    pub session_id: String,
    pub labels: Vec<String>,
    pub risk: Risk,
    pub explanation: String,
}

/// What a record holds, as mathematical values.
pub struct RecordView {
    pub edit_id: u128,
    pub range: LineRange,
    pub timestamp: Timestamp,
    pub user: Seq<char>,
    pub agent: Seq<char>,
    pub session_id: Seq<char>,
    pub labels: Seq<Seq<char>>,
    pub risk: Risk,
    pub explanation: Seq<char>,
}

pub open spec fn strings_view(v: Seq<String>) -> Seq<Seq<char>> {
    v.map_values(|s: String| s@)
}

impl View for GlossRecord {
    type V = RecordView;

    open spec fn view(&self) -> RecordView {
        RecordView {
            edit_id: self.edit_id,
            range: self.range,
            timestamp: self.timestamp,
            user: self.user@,
            agent: self.agent@,
            session_id: self.session_id@,
            labels: strings_view(self.labels@),
            risk: self.risk,
            explanation: self.explanation@,
        }
    }
}

/// A body line: a record, or a line of a kind this version does not know,
/// kept as it was.
#[derive(Debug)]
pub enum GlossLine {
    Record(GlossRecord),
    Opaque(String),
}

pub enum LineView {
    Record(RecordView),
    Opaque(Seq<char>),
}

impl View for GlossLine {
    type V = LineView;

    open spec fn view(&self) -> LineView {
        match self {
            GlossLine::Record(r) => LineView::Record(r@),
            GlossLine::Opaque(s) => LineView::Opaque(s@),
        }
    }
}

/// A whole gloss file.
#[derive(Debug)]
pub struct GlossFile {
    pub version: u8,
    pub updated: Timestamp,
    pub editor: String,
    pub headers: Vec<String>,
    pub body: Vec<GlossLine>,
}

pub struct FileView {
    pub version: u8,
    pub updated: Timestamp,
    pub editor: Seq<char>,
    pub headers: Seq<Seq<char>>,
    pub body: Seq<LineView>,
}

pub open spec fn lines_view(v: Seq<GlossLine>) -> Seq<LineView> {
    v.map_values(|l: GlossLine| l@)
}

impl View for GlossFile {
    type V = FileView;

    open spec fn view(&self) -> FileView {
        FileView {
            version: self.version,
            updated: self.updated,
            editor: self.editor@,
            headers: strings_view(self.headers@),
            body: lines_view(self.body@),
        }
    }
}

pub open spec fn record_result_view(r: Result<GlossRecord, GlossError>) -> Result<
    RecordView,
    ErrorView,
> {
    match r {
        Ok(v) => Ok(v@),
        Err(e) => Err(e@),
    }
}

pub open spec fn body_result_view(r: Result<Vec<GlossLine>, GlossError>) -> Result<
    Seq<LineView>,
    ErrorView,
> {
    match r {
        Ok(v) => Ok(lines_view(v@)),
        Err(e) => Err(e@),
    }
}

pub open spec fn file_result_view(r: Result<GlossFile, GlossError>) -> Result<FileView, ErrorView> {
    match r {
        Ok(v) => Ok(v@),
        Err(e) => Err(e@),
    }
}

/// A message that ends with a line number.
pub open spec fn at_line(message: Seq<char>, line_number: nat) -> Seq<char> {
    message + dec(line_number)
}

/// The parts of a record row, split at whitespace, have the right count, no
/// empty metadata part, and an explanation that is not blank.
pub open spec fn record_parts_ok(parts: Seq<Seq<char>>, expected: nat) -> bool {
    &&& parts.len() == expected
    &&& forall|j: int| 0 <= j < expected - 1 ==> (#[trigger] parts[j]).len() > 0
    &&& crate::text::trim(parts[expected - 1]).len() > 0
}

/// A record row read under the file's declared version: 7 fields in version
/// 1, 9 (with labels and risk) in version 2, the last one the explanation.
pub open spec fn parse_record_spec(
    line: Seq<char>,
    version: u8,
    path: Seq<char>,
    line_number: nat,
) -> Result<RecordView, ErrorView> {
    let v2 = version >= LABELS_VERSION;
    let expected: nat = if v2 {
        9
    } else {
        7
    };
    let parts = crate::text::splitn_ws(line, expected);
    if !record_parts_ok(parts, expected) {
        Err(invalid_in(path, at_line("invalid record at line "@, line_number)))
    } else {
        match uuid_parse(parts[0]) {
            None => Err(
                with_file(
                    error_of(ErrorCode::InvalidUuid, at_line("invalid UUID at line "@, line_number)),
                    path,
                ),
            ),
            Some(id) => match line_range_parse(parts[1]) {
                Err(e) => Err(with_file(e, path)),
                Ok(range) => match timestamp_parse(parts[2]) {
                    None => Err(
                        invalid_in(path, at_line("invalid record timestamp at line "@, line_number)),
                    ),
                    Some(ts) => if !(is_token(parts[3]) && is_token(parts[4]) && is_token(
                        parts[5],
                    )) {
                        Err(
                            invalid_in(
                                path,
                                at_line("metadata must use non-empty tokens at line "@, line_number),
                            ),
                        )
                    } else if v2 {
                        match parse_labels(parts[6]) {
                            None => Err(
                                invalid_in(path, at_line("invalid labels at line "@, line_number)),
                            ),
                            Some(labels) => match risk_parse(parts[7]) {
                                None => Err(
                                    invalid_in(path, at_line("invalid risk at line "@, line_number)),
                                ),
                                Some(risk) => Ok(
                                    RecordView {
                                        edit_id: id,
                                        range,
                                        timestamp: ts,
                                        user: parts[3],
                                        agent: parts[4],
                                        session_id: parts[5],
                                        labels,
                                        risk,
                                        explanation: crate::text::trim(parts[8]),
                                    },
                                ),
                            },
                        }
                    } else {
                        Ok(
                            RecordView {
                                edit_id: id,
                                range,
                                timestamp: ts,
                                user: parts[3],
                                agent: parts[4],
                                session_id: parts[5],
                                labels: seq![],
                                risk: Risk::NoRisk,
                                explanation: crate::text::trim(parts[6]),
                            },
                        )
                    },
                },
            },
        }
    }
}

fn invalid_at(path: &str, message: &str, line_number: usize) -> (e: GlossError)
    ensures
        e@ == invalid_in(path@, at_line(message@, line_number as nat)),
{
    GlossError::new(ErrorCode::InvalidFormat, message_at(message, line_number)).file(path)
}

fn message_at(message: &str, line_number: usize) -> (s: String)
    ensures
        s@ == at_line(message@, line_number as nat),
{
    let mut m: Vec<char> = Vec::new();
    push_str(&mut m, message);
    push_dec(&mut m, line_number as u64);
    string_of(&m)
}

fn invalid(path: &str, message: String) -> (e: GlossError)
    ensures
        e@ == invalid_in(path@, message@),
{
    GlossError::new(ErrorCode::InvalidFormat, message).file(path)
}

fn strings_of(v: &Vec<Vec<char>>) -> (r: Vec<String>)
    ensures
        strings_view(r@) == seqs_view(v@),
{
    let mut r: Vec<String> = Vec::new();
    let mut i: usize = 0;
    while i < v.len()
        invariant
            i <= v@.len(),
            strings_view(r@) == seqs_view(v@).subrange(0, i as int),
        decreases v@.len() - i,
    {
        let ghost before = r@;
        let item = string_of(&v[i]);
        r.push(item);
        proof {
            assert(r@ == before.push(item));
            assert(strings_view(r@) =~= strings_view(before).push(item@));
            assert(seqs_view(v@).subrange(0, i + 1) =~= seqs_view(v@).subrange(0, i as int).push(
                v@[i as int]@,
            ));
        }
        i = i + 1;
    }
    proof {
        assert(seqs_view(v@).subrange(0, v@.len() as int) =~= seqs_view(v@));
    }
    r
}

fn parse_record(line: &Vec<char>, version: u8, path: &str, line_number: usize) -> (r: Result<
    GlossRecord,
    GlossError,
>)
    ensures
        record_result_view(r) == parse_record_spec(line@, version, path@, line_number as nat),
{
    let v2 = version >= LABELS_VERSION;
    let expected: usize = if v2 {
        9
    } else {
        7
    };
    let parts = crate::text::splitn_whitespace(line, expected);
    let ghost pv = seqs_view(parts@);
    if parts.len() != expected {
        return Err(invalid_at(path, "invalid record at line ", line_number));
    }
    let mut j: usize = 0;
    while j < expected - 1
        invariant
            pv == seqs_view(parts@),
            pv == crate::text::splitn_ws(line@, expected as nat),
            expected as nat == (if version >= LABELS_VERSION {
                9nat
            } else {
                7nat
            }),
            parts@.len() == expected,
            expected == 7 || expected == 9,
            j <= expected - 1,
            forall|k: int| 0 <= k < j ==> (#[trigger] pv[k]).len() > 0,
        decreases expected - 1 - j,
    {
        if parts[j].len() == 0 {
            proof {
                assert(pv[j as int].len() == 0);
            }
            return Err(invalid_at(path, "invalid record at line ", line_number));
        }
        j = j + 1;
    }
    if crate::text::is_blank(&parts[expected - 1]) {
        return Err(invalid_at(path, "invalid record at line ", line_number));
    }
    proof {
        assert(record_parts_ok(pv, expected as nat));
    }
    let edit_id = match parse_edit_id(string_of(&parts[0]).as_str()) {
        Some(id) => id,
        None => {
            return Err(
                GlossError::new(
                    ErrorCode::InvalidUuid,
                    message_at("invalid UUID at line ", line_number),
                ).file(path),
            );
        },
    };
    let range = match parse_range_chars(&parts[1]) {
        Ok(range) => range,
        Err(e) => {
            return Err(e.file(path));
        },
    };
    let ts = match Timestamp::parse(string_of(&parts[2]).as_str()) {
        Some(ts) => ts,
        None => {
            return Err(invalid_at(path, "invalid record timestamp at line ", line_number));
        },
    };
    if !(valid_token(&parts[3]) && valid_token(&parts[4]) && valid_token(&parts[5])) {
        return Err(invalid_at(path, "metadata must use non-empty tokens at line ", line_number));
    }
    if v2 {
        let labels = match labels_of(&parts[6]) {
            Some(labels) => labels,
            None => {
                return Err(invalid_at(path, "invalid labels at line ", line_number));
            },
        };
        let risk = match risk_of(&parts[7]) {
            Some(risk) => risk,
            None => {
                return Err(invalid_at(path, "invalid risk at line ", line_number));
            },
        };
        Ok(
            GlossRecord {
                edit_id,
                range,
                timestamp: ts,
                user: string_of(&parts[3]),
                agent: string_of(&parts[4]),
                session_id: string_of(&parts[5]),
                labels: strings_of(&labels),
                risk,
                explanation: string_of(&crate::text::trim_chars(&parts[8])),
            },
        )
    } else {
        let labels: Vec<String> = Vec::new();
        proof {
            assert(strings_view(labels@) =~= Seq::<Seq<char>>::empty());
        }
        Ok(
            GlossRecord {
                edit_id,
                range,
                timestamp: ts,
                user: string_of(&parts[3]),
                agent: string_of(&parts[4]),
                session_id: string_of(&parts[5]),
                labels,
                risk: Risk::NoRisk,
                explanation: string_of(&crate::text::trim_chars(&parts[6])),
            },
        )
    }
}


/// The body lines from index `i` on, each read as a record when its first
/// field is an attempted UUID and kept as an opaque line otherwise; a blank
/// line is an error. Line numbers count from 1 over the whole file.
pub open spec fn parse_body_spec(ls: Seq<Seq<char>>, i: int, version: u8, path: Seq<char>) -> Result<
    Seq<LineView>,
    ErrorView,
>
    decreases ls.len() - i,
{
    if i < 0 || i >= ls.len() {
        Ok(seq![])
    } else if crate::text::all_ws(ls[i]) {
        Err(invalid_in(path, at_line("unexpected blank line at "@, (i + 1) as nat)))
    } else {
        let item = if record_shaped(crate::text::first_token(ls[i])) {
            match parse_record_spec(ls[i], version, path, (i + 1) as nat) {
                Ok(r) => Ok(LineView::Record(r)),
                Err(e) => Err(e),
            }
        } else {
            Ok(LineView::Opaque(ls[i]))
        };
        match item {
            Err(e) => Err(e),
            Ok(line) => match parse_body_spec(ls, i + 1, version, path) {
                Ok(rest) => Ok(seq![line] + rest),
                Err(e) => Err(e),
            },
        }
    }
}

/// Index of the first empty line at or after `i`, or `ls.len()`.
pub open spec fn header_end(ls: Seq<Seq<char>>, i: int) -> int
    decreases ls.len() - i,
{
    if i < 0 || i >= ls.len() {
        ls.len() as int
    } else if ls[i].len() == 0 {
        i
    } else {
        header_end(ls, i + 1)
    }
}

pub proof fn lemma_header_end(ls: Seq<Seq<char>>, i: int)
    requires
        0 <= i <= ls.len(),
    ensures
        i <= header_end(ls, i) <= ls.len(),
        forall|j: int| i <= j < header_end(ls, i) ==> ls[j].len() > 0,
        header_end(ls, i) < ls.len() ==> ls[header_end(ls, i)].len() == 0,
    decreases ls.len() - i,
{
    if i < ls.len() && ls[i].len() > 0 {
        lemma_header_end(ls, i + 1);
    }
}

pub proof fn lemma_header_end_is(ls: Seq<Seq<char>>, i: int, k: int)
    requires
        0 <= i <= k <= ls.len(),
        forall|j: int| i <= j < k ==> ls[j].len() > 0,
        k < ls.len() ==> ls[k].len() == 0,
    ensures
        header_end(ls, i) == k,
{
    lemma_header_end(ls, i);
}

/// A gloss file read from its lines: `version: <n>` with n in 1..=2,
/// `updated: <RFC 3339 instant>`, `editor: <token>`, any further header lines
/// up to a blank line, then the body.
pub open spec fn parse_lines_spec(ls: Seq<Seq<char>>, path: Seq<char>) -> Result<FileView, ErrorView> {
    if ls.len() < 1 {
        Err(invalid_in(path, "missing version header"@))
    } else {
        match crate::text::strip_prefix(ls[0], "version: "@) {
            None => Err(invalid_in(path, "expected `version: <number>`"@)),
            Some(vt) => match parse_unsigned(vt, 255) {
                None => Err(invalid_in(path, "version must be a number"@)),
                Some(v) => if v < MIN_VERSION || v > CURRENT_VERSION {
                    Err(invalid_in(path, "unsupported gloss version "@ + dec(v)))
                } else {
                    parse_after_version(ls, v as u8, path)
                },
            },
        }
    }
}

pub open spec fn parse_after_version(ls: Seq<Seq<char>>, version: u8, path: Seq<char>) -> Result<
    FileView,
    ErrorView,
> {
    if ls.len() < 2 {
        Err(invalid_in(path, "missing updated header"@))
    } else {
        match crate::text::strip_prefix(ls[1], "updated: "@) {
            None => Err(invalid_in(path, "expected `updated: <timestamp>`"@)),
            Some(t) => match timestamp_parse(t) {
                None => Err(invalid_in(path, "updated must be an RFC 3339 timestamp"@)),
                Some(updated) => parse_after_updated(ls, version, updated, path),
            },
        }
    }
}

pub open spec fn parse_after_updated(
    ls: Seq<Seq<char>>,
    version: u8,
    updated: Timestamp,
    path: Seq<char>,
) -> Result<FileView, ErrorView> {
    if ls.len() < 3 {
        Err(invalid_in(path, "missing editor header"@))
    } else {
        match crate::text::strip_prefix(ls[2], "editor: "@) {
            None => Err(invalid_in(path, "editor must be one non-empty token"@)),
            Some(editor) => if !is_token(editor) {
                Err(invalid_in(path, "editor must be one non-empty token"@))
            } else {
                let h = header_end(ls, 3);
                if h >= ls.len() {
                    Err(invalid_in(path, "header must be followed by a blank line"@))
                } else {
                    match parse_body_spec(ls, h + 1, version, path) {
                        Err(e) => Err(e),
                        Ok(body) => Ok(
                            FileView {
                                version,
                                updated,
                                editor,
                                headers: ls.subrange(3, h),
                                body,
                            },
                        ),
                    }
                }
            },
        }
    }
}

/// A gloss file read from its text.
pub open spec fn parse_spec(input: Seq<char>, path: Seq<char>) -> Result<FileView, ErrorView> {
    parse_lines_spec(crate::text::lines(input), path)
}

fn parse_body(ls: &Vec<Vec<char>>, start: usize, version: u8, path: &str) -> (r: Result<
    Vec<GlossLine>,
    GlossError,
>)
    requires
        start <= ls@.len(),
    ensures
        body_result_view(r) == parse_body_spec(seqs_view(ls@), start as int, version, path@),
{
    let ghost lv = seqs_view(ls@);
    let mut body: Vec<GlossLine> = Vec::new();
    let mut i: usize = start;
    while i < ls.len()
        invariant
            lv == seqs_view(ls@),
            start <= i <= ls@.len(),
            parse_body_spec(lv, start as int, version, path@) == match parse_body_spec(
                lv,
                i as int,
                version,
                path@,
            ) {
                Ok(rest) => Ok(lines_view(body@) + rest),
                Err(e) => Err(e),
            },
        decreases ls@.len() - i,
    {
        let line = &ls[i];
        proof {
            assert(lv[i as int] == line@);
        }
        let ghost before = lines_view(body@);
        if crate::text::is_blank(line) {
            return Err(invalid_at(path, "unexpected blank line at ", i + 1));
        }
        let first = crate::text::first_token_of(line);
        if is_record_shaped(&first) {
            match parse_record(line, version, path, i + 1) {
                Ok(record) => {
                    body.push(GlossLine::Record(record));
                },
                Err(e) => {
                    return Err(e);
                },
            }
        } else {
            body.push(GlossLine::Opaque(string_of(line)));
        }
        proof {
            assert(lines_view(body@) =~= before.push(body@.last()@));
            match parse_body_spec(lv, i + 1, version, path@) {
                Ok(rest) => {
                    assert(lines_view(body@) + rest =~= before + (seq![body@.last()@] + rest));
                },
                Err(e) => {},
            }
        }
        i = i + 1;
    }
    proof {
        assert(lines_view(body@) + Seq::<LineView>::empty() =~= lines_view(body@));
    }
    Ok(body)
}

impl GlossFile {
    /// A file with only its header: the oldest version, no extra header
    /// lines and no body.
    pub fn empty(updated: Timestamp, editor: &str) -> (f: GlossFile)
        ensures
            f@.version == MIN_VERSION,
            f@.updated == updated,
            f@.editor == editor@,
            f@.headers.len() == 0,
            f@.body.len() == 0,
    {
        GlossFile {
            version: MIN_VERSION,
            updated,
            editor: owned(editor),
            headers: Vec::new(),
            body: Vec::new(),
        }
    }

    /// Reads a gloss file; `path` names it in errors.
    pub fn parse(input: &str, path: &str) -> (r: Result<GlossFile, GlossError>)
        ensures
            file_result_view(r) == parse_spec(input@, path@),
    {
        let chars = chars_of(input);
        let ls = crate::text::split_lines(&chars);
        parse_lines(&ls, path)
    }
}

fn parse_lines(ls: &Vec<Vec<char>>, path: &str) -> (r: Result<GlossFile, GlossError>)
    ensures
        file_result_view(r) == parse_lines_spec(seqs_view(ls@), path@),
{
    let ghost lv = seqs_view(ls@);
    if ls.len() < 1 {
        return Err(invalid(path, owned("missing version header")));
    }
    proof {
        assert(lv[0] == ls@[0]@);
    }
    let version = match crate::text::strip_prefix_of(&ls[0], "version: ") {
        None => {
            return Err(invalid(path, owned("expected `version: <number>`")));
        },
        Some(vt) => match parse_unsigned_of(&vt, 255) {
            None => {
                return Err(invalid(path, owned("version must be a number")));
            },
            Some(v) => {
                if v < MIN_VERSION as u32 || v > CURRENT_VERSION as u32 {
                    let mut m: Vec<char> = Vec::new();
                    push_str(&mut m, "unsupported gloss version ");
                    push_dec(&mut m, v as u64);
                    return Err(invalid(path, string_of(&m)));
                }
                v as u8
            },
        },
    };
    if ls.len() < 2 {
        return Err(invalid(path, owned("missing updated header")));
    }
    proof {
        assert(lv[1] == ls@[1]@);
    }
    let updated = match crate::text::strip_prefix_of(&ls[1], "updated: ") {
        None => {
            return Err(invalid(path, owned("expected `updated: <timestamp>`")));
        },
        Some(t) => match Timestamp::parse(string_of(&t).as_str()) {
            None => {
                return Err(invalid(path, owned("updated must be an RFC 3339 timestamp")));
            },
            Some(ts) => ts,
        },
    };
    if ls.len() < 3 {
        return Err(invalid(path, owned("missing editor header")));
    }
    proof {
        assert(lv[2] == ls@[2]@);
    }
    let editor = match crate::text::strip_prefix_of(&ls[2], "editor: ") {
        None => {
            return Err(invalid(path, owned("editor must be one non-empty token")));
        },
        Some(e) => {
            if !valid_token(&e) {
                return Err(invalid(path, owned("editor must be one non-empty token")));
            }
            e
        },
    };
    let mut headers: Vec<String> = Vec::new();
    let mut h: usize = 3;
    while h < ls.len() && ls[h].len() != 0
        invariant
            lv == seqs_view(ls@),
            3 <= h <= ls@.len(),
            forall|j: int| 3 <= j < h ==> lv[j].len() > 0,
            strings_view(headers@) == lv.subrange(3, h as int),
        decreases ls@.len() - h,
    {
        proof {
            assert(lv[h as int] == ls@[h as int]@);
        }
        let ghost before = headers@;
        let item = string_of(&ls[h]);
        headers.push(item);
        proof {
            assert(strings_view(headers@) =~= strings_view(before).push(item@));
            assert(lv.subrange(3, h + 1) =~= lv.subrange(3, h as int).push(lv[h as int]));
        }
        h = h + 1;
    }
    proof {
        if h < ls@.len() {
            assert(lv[h as int] == ls@[h as int]@);
        }
        lemma_header_end_is(lv, 3, h as int);
    }
    if h >= ls.len() {
        return Err(invalid(path, owned("header must be followed by a blank line")));
    }
    let body = match parse_body(ls, h + 1, version, path) {
        Ok(body) => body,
        Err(e) => {
            return Err(e);
        },
    };
    Ok(GlossFile { version, updated, editor: string_of(&editor), headers, body })
}


/// String order on labels: code point by code point, a prefix first.
pub open spec fn label_le(a: Seq<char>, b: Seq<char>) -> bool
    decreases a.len(),
{
    if a.len() == 0 {
        true
    } else if b.len() == 0 {
        false
    } else if a[0] < b[0] {
        true
    } else if a[0] > b[0] {
        false
    } else {
        label_le(a.drop_first(), b.drop_first())
    }
}

/// `x` inserted before the first entry of `s` that it does not exceed.
pub open spec fn insert_label(x: Seq<char>, s: Seq<Seq<char>>) -> Seq<Seq<char>>
    decreases s.len(),
{
    if s.len() == 0 {
        seq![x]
    } else if label_le(x, s[0]) {
        seq![x] + s
    } else {
        seq![s[0]] + insert_label(x, s.drop_first())
    }
}

/// The labels in ascending string order.
pub open spec fn sort_labels(s: Seq<Seq<char>>) -> Seq<Seq<char>>
    decreases s.len(),
{
    if s.len() == 0 {
        seq![]
    } else {
        insert_label(s.last(), sort_labels(s.drop_last()))
    }
}

/// The labels joined with commas.
pub open spec fn join_comma(ls: Seq<Seq<char>>) -> Seq<char>
    decreases ls.len(),
{
    if ls.len() == 0 {
        seq![]
    } else if ls.len() == 1 {
        ls[0]
    } else {
        join_comma(ls.drop_last()) + seq![','] + ls.last()
    }
}

/// The labels field as version 2 writes it.
pub open spec fn labels_text(ls: Seq<Seq<char>>) -> Seq<char> {
    if ls.len() == 0 {
        "-"@
    } else {
        join_comma(sort_labels(ls))
    }
}

/// Whether a record needs the version 2 layout.
pub open spec fn uses_v2_fields(r: RecordView) -> bool {
    r.labels.len() > 0 || r.risk != Risk::NoRisk
}

pub open spec fn line_uses_v2(l: LineView) -> bool {
    match l {
        LineView::Record(r) => uses_v2_fields(r),
        LineView::Opaque(_) => false,
    }
}

/// The version a file is written with: never lower than declared, and at
/// least the labels version when a record has labels or a risk.
pub open spec fn render_version(f: FileView) -> u8 {
    let required: u8 = if exists|i: int| 0 <= i < f.body.len() && line_uses_v2(#[trigger] f.body[i]) {
        LABELS_VERSION
    } else {
        MIN_VERSION
    };
    if f.version >= required {
        f.version
    } else {
        required
    }
}

/// A record row as written under `version`.
pub open spec fn record_text(r: RecordView, version: u8) -> Seq<char> {
    uuid_text(r.edit_id) + " "@ + range_text(r.range) + " "@ + timestamp_text(r.timestamp) + " "@
        + r.user + " "@ + r.agent + " "@ + r.session_id + (if version >= LABELS_VERSION {
        " "@ + labels_text(r.labels) + " "@ + risk_text(r.risk)
    } else {
        seq![]
    }) + " "@ + crate::text::trim(r.explanation)
}

pub open spec fn line_text(l: LineView, version: u8) -> Seq<char> {
    match l {
        LineView::Record(r) => record_text(r, version),
        LineView::Opaque(s) => s,
    }
}

pub open spec fn body_texts(body: Seq<LineView>, version: u8) -> Seq<Seq<char>> {
    body.map_values(|l: LineView| line_text(l, version))
}

/// The lines a file is written as.
pub open spec fn render_lines(f: FileView) -> Seq<Seq<char>> {
    let v = render_version(f);
    seq![
        "version: "@ + dec(v as nat),
        "updated: "@ + timestamp_text(f.updated),
        "editor: "@ + f.editor,
    ] + f.headers + seq![Seq::<char>::empty()] + body_texts(f.body, v)
}

/// Each line followed by a newline.
pub open spec fn join_lines(ls: Seq<Seq<char>>) -> Seq<char>
    decreases ls.len(),
{
    if ls.len() == 0 {
        seq![]
    } else {
        join_lines(ls.drop_last()) + ls.last() + seq!['\n']
    }
}

/// The text a file is written as.
pub open spec fn render_spec(f: FileView) -> Seq<char> {
    join_lines(render_lines(f))
}

/// The records of a body, in order.
pub open spec fn records_of(body: Seq<LineView>) -> Seq<RecordView>
    decreases body.len(),
{
    if body.len() == 0 {
        seq![]
    } else {
        records_of(body.drop_last()) + match body.last() {
            LineView::Record(r) => seq![r],
            LineView::Opaque(_) => Seq::<RecordView>::empty(),
        }
    }
}

pub open spec fn record_refs_view(v: Seq<&GlossRecord>) -> Seq<RecordView> {
    v.map_values(|r: &GlossRecord| r@)
}

pub open spec fn records_view(v: Seq<GlossRecord>) -> Seq<RecordView> {
    v.map_values(|r: GlossRecord| r@)
}

pub(crate) fn label_le_of(a: &Vec<char>, b: &Vec<char>) -> (r: bool)
    ensures
        r == label_le(a@, b@),
{
    let mut i: usize = 0;
    proof {
        assert(a@.skip(0) =~= a@);
        assert(b@.skip(0) =~= b@);
    }
    while i < a.len() && i < b.len() && a[i] == b[i]
        invariant
            i <= a@.len(),
            i <= b@.len(),
            label_le(a@, b@) == label_le(a@.skip(i as int), b@.skip(i as int)),
        decreases a@.len() - i,
    {
        proof {
            assert(a@.skip(i as int).drop_first() =~= a@.skip(i + 1));
            assert(b@.skip(i as int).drop_first() =~= b@.skip(i + 1));
        }
        i = i + 1;
    }
    proof {
        if i < a@.len() {
            assert(a@.skip(i as int)[0] == a@[i as int]);
        }
        if i < b@.len() {
            assert(b@.skip(i as int)[0] == b@[i as int]);
        }
    }
    if i >= a.len() {
        true
    } else if i >= b.len() {
        false
    } else {
        a[i] < b[i]
    }
}

pub proof fn lemma_insert_label_at(x: Seq<char>, s: Seq<Seq<char>>, p: int)
    requires
        0 <= p <= s.len(),
        forall|j: int| 0 <= j < p ==> !label_le(x, #[trigger] s[j]),
        p < s.len() ==> label_le(x, s[p]),
    ensures
        insert_label(x, s) == s.take(p) + seq![x] + s.skip(p),
    decreases p,
{
    if p == 0 {
        if s.len() == 0 {
            assert(s.take(0) + seq![x] + s.skip(0) =~= seq![x]);
        } else {
            assert(s.take(0) + seq![x] + s.skip(0) =~= seq![x] + s);
        }
    } else {
        assert(!label_le(x, s[0]));
        let t = s.drop_first();
        assert forall|j: int| 0 <= j < p - 1 implies !label_le(x, #[trigger] t[j]) by {
            assert(t[j] == s[j + 1]);
        }
        if p - 1 < t.len() {
            assert(t[p - 1] == s[p]);
        }
        lemma_insert_label_at(x, t, p - 1);
        assert(seq![s[0]] + (t.take(p - 1) + seq![x] + t.skip(p - 1)) =~= s.take(p) + seq![x]
            + s.skip(p));
    }
}

fn insert_label_of(x: Vec<char>, s: Vec<Vec<char>>) -> (r: Vec<Vec<char>>)
    ensures
        seqs_view(r@) == insert_label(x@, seqs_view(s@)),
{
    let ghost sv = seqs_view(s@);
    let mut p: usize = 0;
    while p < s.len() && !label_le_of(&x, &s[p])
        invariant
            sv == seqs_view(s@),
            p <= s@.len(),
            forall|j: int| 0 <= j < p ==> !label_le(x@, #[trigger] sv[j]),
        decreases s@.len() - p,
    {
        proof {
            assert(sv[p as int] == s@[p as int]@);
        }
        p = p + 1;
    }
    proof {
        if p < s@.len() {
            assert(sv[p as int] == s@[p as int]@);
        }
        lemma_insert_label_at(x@, sv, p as int);
    }
    let mut r: Vec<Vec<char>> = Vec::new();
    let mut i: usize = 0;
    while i < p
        invariant
            sv == seqs_view(s@),
            p <= s@.len(),
            i <= p,
            seqs_view(r@) == sv.take(i as int),
        decreases p - i,
    {
        let ghost before = r@;
        let item = crate::text::copy_of(&s[i]);
        r.push(item);
        proof {
            assert(seqs_view(r@) =~= seqs_view(before).push(item@));
            assert(sv.take(i + 1) =~= sv.take(i as int).push(sv[i as int]));
        }
        i = i + 1;
    }
    let ghost before_x = r@;
    r.push(x);
    proof {
        assert(seqs_view(r@) =~= seqs_view(before_x).push(x@));
    }
    let mut k: usize = p;
    while k < s.len()
        invariant
            sv == seqs_view(s@),
            p <= k <= s@.len(),
            seqs_view(r@) == sv.take(p as int) + seq![x@] + sv.subrange(p as int, k as int),
        decreases s@.len() - k,
    {
        let ghost before = r@;
        let item = crate::text::copy_of(&s[k]);
        r.push(item);
        proof {
            assert(seqs_view(r@) =~= seqs_view(before).push(item@));
            assert(sv.subrange(p as int, k + 1) =~= sv.subrange(p as int, k as int).push(
                sv[k as int],
            ));
        }
        k = k + 1;
    }
    proof {
        assert(sv.subrange(p as int, s@.len() as int) =~= sv.skip(p as int));
    }
    r
}

fn sorted_labels(labels: &Vec<String>) -> (r: Vec<Vec<char>>)
    ensures
        seqs_view(r@) == sort_labels(strings_view(labels@)),
{
    let ghost lv = strings_view(labels@);
    let mut sorted: Vec<Vec<char>> = Vec::new();
    let mut i: usize = 0;
    proof {
        assert(lv.take(0) =~= Seq::<Seq<char>>::empty());
        assert(seqs_view(sorted@) =~= Seq::<Seq<char>>::empty());
    }
    while i < labels.len()
        invariant
            lv == strings_view(labels@),
            i <= labels@.len(),
            seqs_view(sorted@) == sort_labels(lv.take(i as int)),
        decreases labels@.len() - i,
    {
        let x = chars_of(labels[i].as_str());
        proof {
            assert(lv[i as int] == labels@[i as int]@);
            assert(lv.take(i + 1).drop_last() =~= lv.take(i as int));
            assert(lv.take(i + 1).last() == lv[i as int]);
        }
        sorted = insert_label_of(x, sorted);
        i = i + 1;
    }
    proof {
        assert(lv.take(labels@.len() as int) =~= lv);
    }
    sorted
}

/// Appends the labels field as version 2 writes it.
fn push_labels(out: &mut Vec<char>, labels: &Vec<String>)
    ensures
        final(out)@ == old(out)@ + labels_text(strings_view(labels@)),
{
    if labels.len() == 0 {
        push_str(out, "-");
        return;
    }
    let sorted = sorted_labels(labels);
    let ghost sv = seqs_view(sorted@);
    proof {
        lemma_sort_labels_len(strings_view(labels@));
    }
    let ghost start = out@;
    push_all(out, &sorted[0]);
    proof {
        assert(sv[0] == sorted@[0]@);
        assert(sv.take(1).drop_last() =~= Seq::<Seq<char>>::empty());
        assert(join_comma(sv.take(1)) == sv[0]);
    }
    let mut i: usize = 1;
    while i < sorted.len()
        invariant
            sv == seqs_view(sorted@),
            1 <= i <= sorted@.len(),
            out@ == start + join_comma(sv.take(i as int)),
        decreases sorted@.len() - i,
    {
        out.push(',');
        push_all(out, &sorted[i]);
        proof {
            assert(sv[i as int] == sorted@[i as int]@);
            assert(sv.take(i + 1).drop_last() =~= sv.take(i as int));
            assert(sv.take(i + 1).last() == sv[i as int]);
            assert(join_comma(sv.take(i + 1)) == join_comma(sv.take(i as int)) + seq![',']
                + sv[i as int]);
            assert(out@ =~= start + join_comma(sv.take(i + 1)));
        }
        i = i + 1;
    }
    proof {
        assert(sv.take(sorted@.len() as int) =~= sv);
    }
}

pub proof fn lemma_insert_label_len(x: Seq<char>, s: Seq<Seq<char>>)
    ensures
        insert_label(x, s).len() == s.len() + 1,
    decreases s.len(),
{
    if s.len() > 0 && !label_le(x, s[0]) {
        lemma_insert_label_len(x, s.drop_first());
    }
}

pub proof fn lemma_sort_labels_len(s: Seq<Seq<char>>)
    ensures
        sort_labels(s).len() == s.len(),
    decreases s.len(),
{
    if s.len() > 0 {
        lemma_sort_labels_len(s.drop_last());
        lemma_insert_label_len(s.last(), sort_labels(s.drop_last()));
    }
}

/// What writing a body line shows of the outside parsers: its edit ID reads
/// back, and so does its instant when chrono holds it.
pub open spec fn reads_back_if_ok(l: LineView) -> bool {
    match l {
        LineView::Record(r) => id_round_trips(r.edit_id) && (chrono_instant(r.timestamp)
            ==> instant_round_trips(r.timestamp)),
        LineView::Opaque(_) => true,
    }
}

/// Appends a record row as written under `version`.
fn push_record_text(out: &mut Vec<char>, r: &GlossRecord, version: u8)
    ensures
        final(out)@ == old(out)@ + record_text(r@, version),
        id_round_trips(r.edit_id),
        chrono_instant(r.timestamp) ==> instant_round_trips(r.timestamp),
{
    let ghost start = out@;
    let id = edit_id_text(r.edit_id);
    push_str(out, id.as_str());
    push_str(out, " ");
    push_range_text(out, r.range);
    push_str(out, " ");
    let ts = timestamp(r.timestamp);
    push_str(out, ts.as_str());
    push_str(out, " ");
    push_str(out, r.user.as_str());
    push_str(out, " ");
    push_str(out, r.agent.as_str());
    push_str(out, " ");
    push_str(out, r.session_id.as_str());
    let ghost mid = out@;
    if version >= LABELS_VERSION {
        push_str(out, " ");
        push_labels(out, &r.labels);
        push_str(out, " ");
        push_str(out, r.risk.as_str());
    }
    let ghost mid2 = out@;
    push_str(out, " ");
    let explanation = crate::text::trim_chars(&chars_of(r.explanation.as_str()));
    push_all(out, &explanation);
    proof {
        if version >= LABELS_VERSION {
            assert(mid2 =~= mid + (" "@ + labels_text(r@.labels) + " "@ + risk_text(r.risk)));
        } else {
            assert(mid2 =~= mid + Seq::<char>::empty());
        }
        assert(out@ =~= start + record_text(r@, version));
    }
}

pub proof fn lemma_join_lines_take(ls: Seq<Seq<char>>, k: int)
    requires
        0 <= k < ls.len(),
    ensures
        join_lines(ls.take(k + 1)) == join_lines(ls.take(k)) + ls[k] + seq!['\n'],
{
    assert(ls.take(k + 1).drop_last() =~= ls.take(k));
}

/// Appends `line` and a newline, keeping `out` the joined prefix of `ls`.
fn push_line(
    out: &mut Vec<char>,
    line: &Vec<char>,
    Ghost(ls): Ghost<Seq<Seq<char>>>,
    Ghost(k): Ghost<int>,
)
    requires
        0 <= k < ls.len(),
        ls[k] == line@,
        old(out)@ == join_lines(ls.take(k)),
    ensures
        final(out)@ == join_lines(ls.take(k + 1)),
{
    push_all(out, line);
    out.push('\n');
    proof {
        lemma_join_lines_take(ls, k);
    }
}

impl GlossFile {
    /// The records of the body, in order.
    pub fn records(&self) -> (r: Vec<&GlossRecord>)
        ensures
            record_refs_view(r@) == records_of(self@.body),
    {
        let ghost bv = lines_view(self.body@);
        let mut r: Vec<&GlossRecord> = Vec::new();
        let mut i: usize = 0;
        while i < self.body.len()
            invariant
                bv == lines_view(self.body@),
                i <= self.body@.len(),
                record_refs_view(r@) == records_of(bv.take(i as int)),
            decreases self.body@.len() - i,
        {
            let ghost before = r@;
            proof {
                assert(bv.take(i + 1).drop_last() =~= bv.take(i as int));
                assert(bv.take(i + 1).last() == self.body@[i as int]@);
            }
            match &self.body[i] {
                GlossLine::Record(record) => {
                    r.push(record);
                    proof {
                        assert(record_refs_view(r@) =~= record_refs_view(before) + seq![record@]);
                    }
                },
                GlossLine::Opaque(_) => {
                    proof {
                        assert(record_refs_view(r@) =~= record_refs_view(before)
                            + Seq::<RecordView>::empty());
                    }
                },
            }
            i = i + 1;
        }
        proof {
            assert(bv.take(self.body@.len() as int) =~= bv);
        }
        r
    }

    /// The records of the body, in order, taken out of the file.
    pub fn into_records(self) -> (r: Vec<GlossRecord>)
        ensures
            records_view(r@) == records_of(self@.body),
    {
        let ghost bv = lines_view(self.body@);
        let mut body = self.body;
        let mut r: Vec<GlossRecord> = Vec::new();
        let ghost mut taken: int = 0;
        while body.len() > 0
            invariant
                0 <= taken <= bv.len(),
                lines_view(body@) == bv.skip(taken),
                records_view(r@) == records_of(bv.take(taken)),
            decreases body@.len(),
        {
            let ghost before = r@;
            let ghost rest = body@;
            proof {
                assert(lines_view(rest) == bv.skip(taken));
                assert(rest.len() > 0);
                assert(taken < bv.len());
            }
            let line = body.remove(0);
            proof {
                assert(body@ =~= rest.subrange(1, rest.len() as int));
                assert forall|j: int| 0 <= j < body@.len() implies lines_view(body@)[j] == bv.skip(
                    taken + 1,
                )[j] by {
                    assert(lines_view(body@)[j] == body@[j]@);
                    assert(body@[j] == rest[j + 1]);
                    assert(lines_view(rest)[j + 1] == rest[j + 1]@);
                    assert(bv.skip(taken)[j + 1] == bv[taken + 1 + j]);
                }
                assert(lines_view(rest)[0] == line@);
                assert(bv.skip(taken)[0] == bv[taken]);
                assert(bv[taken] == line@);
                assert(bv.take(taken + 1).drop_last() =~= bv.take(taken));
                assert(lines_view(body@) =~= bv.skip(taken + 1));
            }
            match line {
                GlossLine::Record(record) => {
                    let ghost rv = record@;
                    r.push(record);
                    proof {
                        assert(records_view(r@) =~= records_view(before) + seq![rv]);
                    }
                },
                GlossLine::Opaque(_) => {
                    proof {
                        assert(records_view(r@) =~= records_view(before)
                            + Seq::<RecordView>::empty());
                    }
                },
            }
            proof {
                taken = taken + 1;
            }
        }
        proof {
            assert(bv.take(taken) =~= bv);
        }
        r
    }

    /// Appends a record to the body.
    pub fn push_record(&mut self, record: GlossRecord)
        ensures
            final(self)@ == (FileView {
                body: old(self)@.body.push(LineView::Record(record@)),
                ..old(self)@
            }),
    {
        let ghost rv = record@;
        self.body.push(GlossLine::Record(record));
        proof {
            assert(lines_view(self.body@) =~= lines_view(old(self).body@).push(LineView::Record(rv)));
        }
    }

    /// The version the file is written with.
    fn render_version_of(&self) -> (v: u8)
        ensures
            v == render_version(self@),
    {
        let ghost f = self@;
        let mut any_v2 = false;
        let mut i: usize = 0;
        while i < self.body.len()
            invariant
                f == self@,
                i <= self.body@.len(),
                any_v2 == exists|j: int| 0 <= j < i && line_uses_v2(#[trigger] f.body[j]),
            decreases self.body@.len() - i,
        {
            proof {
                assert(f.body[i as int] == self.body@[i as int]@);
            }
            match &self.body[i] {
                GlossLine::Record(r) => {
                    if r.labels.len() > 0 || r.risk != Risk::NoRisk {
                        any_v2 = true;
                    }
                },
                GlossLine::Opaque(_) => {},
            }
            i = i + 1;
        }
        let required: u8 = if any_v2 {
            LABELS_VERSION
        } else {
            MIN_VERSION
        };
        if self.version >= required {
            self.version
        } else {
            required
        }
    }

    /// Appends the header lines, up to and including the blank line.
    fn push_header(&self, out: &mut Vec<char>, version: u8)
        requires
            version == render_version(self@),
            old(out)@.len() == 0,
        ensures
            final(out)@ == join_lines(render_lines(self@).take(4 + self.headers@.len() as int)),
            chrono_instant(self.updated) ==> instant_round_trips(self.updated),
    {
        let ghost f = self@;
        let ghost ls = render_lines(f);
        let nh = self.headers.len();
        assert(ls.len() == 4 + nh + f.body.len());
        proof {
            assert(ls.take(0) =~= Seq::<Seq<char>>::empty());
            assert(out@ =~= join_lines(ls.take(0)));
        }
        let mut line: Vec<char> = Vec::new();
        push_str(&mut line, "version: ");
        push_dec(&mut line, version as u64);
        push_line(out, &line, Ghost(ls), Ghost(0));
        let mut line: Vec<char> = Vec::new();
        push_str(&mut line, "updated: ");
        let ts = timestamp(self.updated);
        push_str(&mut line, ts.as_str());
        push_line(out, &line, Ghost(ls), Ghost(1));
        let mut line: Vec<char> = Vec::new();
        push_str(&mut line, "editor: ");
        push_str(&mut line, self.editor.as_str());
        push_line(out, &line, Ghost(ls), Ghost(2));
        let mut h: usize = 0;
        while h < nh
            invariant
                f == self@,
                ls == render_lines(f),
                nh == self.headers@.len(),
                ls.len() == 4 + nh + f.body.len(),
                h <= nh,
                out@ == join_lines(ls.take(3 + h)),
            decreases nh - h,
        {
            let line = chars_of(self.headers[h].as_str());
            proof {
                assert(ls[3 + h] == f.headers[h as int]);
            }
            push_line(out, &line, Ghost(ls), Ghost(3 + h as int));
            h = h + 1;
        }
        let blank: Vec<char> = Vec::new();
        proof {
            assert(ls[3 + nh] =~= blank@);
        }
        push_line(out, &blank, Ghost(ls), Ghost(3 + nh as int));
    }

    /// The file's text. A well-formed file's text reads back as the file,
    /// with its version promoted as far as its records need, its labels
    /// sorted and its explanations trimmed.
    pub fn render(&self) -> (s: String)
        ensures
            s@ == render_spec(self@),
            file_ok(self@) ==> forall|path: Seq<char>|
                parse_spec(s@, path) == Ok::<FileView, ErrorView>(normalize(self@)),
    {
        let ghost f = self@;
        let version = self.render_version_of();
        let ghost ls = render_lines(f);
        let nh = self.headers.len();
        assert(ls.len() == 4 + nh + f.body.len());
        let mut out: Vec<char> = Vec::new();
        self.push_header(&mut out, version);
        let mut b: usize = 0;
        while b < self.body.len()
            invariant
                f == self@,
                ls == render_lines(f),
                version == render_version(f),
                nh == self.headers@.len(),
                ls.len() == 4 + nh + f.body.len(),
                b <= self.body@.len(),
                out@ == join_lines(ls.take(4 + nh + b)),
                chrono_instant(self.updated) ==> instant_round_trips(self.updated),
                forall|j: int| 0 <= j < b ==> reads_back_if_ok(#[trigger] f.body[j]),
            decreases self.body@.len() - b,
        {
            let mut line: Vec<char> = Vec::new();
            proof {
                assert(f.body[b as int] == self.body@[b as int]@);
                assert(ls[4 + nh + b] == line_text(f.body[b as int], version));
            }
            match &self.body[b] {
                GlossLine::Opaque(text) => {
                    push_str(&mut line, text.as_str());
                },
                GlossLine::Record(record) => {
                    push_record_text(&mut line, record, version);
                },
            }
            push_line(&mut out, &line, Ghost(ls), Ghost(4 + nh + b as int));
            b = b + 1;
        }
        proof {
            assert(ls.take(ls.len() as int) =~= ls);
            if file_ok(f) {
                assert forall|j: int| 0 <= j < f.body.len() implies line_reads_back(
                    #[trigger] f.body[j],
                ) by {
                    assert(reads_back_if_ok(f.body[j]));
                    assert(line_view_ok(f.body[j]));
                }
                assert forall|path: Seq<char>|
                    parse_spec(out@, path) == Ok::<FileView, ErrorView>(normalize(f)) by {
                    lemma_parse_render(f, path);
                }
            }
        }
        string_of(&out)
    }
}

} // verus!
