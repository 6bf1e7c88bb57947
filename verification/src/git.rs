//! What the library reads from Git: zero-context diff hunks, name-status and
//! porcelain status listings, and the repository's location. Running `git`
//! is the caller's part; these functions decide from its output.

use vstd::prelude::*;
use similar::{DiffTag, TextDiff};
use crate::error::{display_path, display_path_of, error_of, with_file, ErrorCode, ErrorView, GlossError};
use crate::paths::{is_absolute, join_of, path_join, path_strip_prefix, strip_prefix_path};
use crate::format::{strings_view, LineRange};
use crate::text::{
    chars_of, lines, parse_unsigned, parse_unsigned_of, seqs_view, split_lines, split_once,
    split_once_on, split_once_str, split_once_str_of, string_of, strip_prefix, strip_prefix_of,
    trim, trim_chars,
};

verus! {

/// Which changes are checked: the working tree against `HEAD`, the index
/// against `HEAD`, or the commits since a base revision.
#[derive(Debug)]
pub enum ChangeScope {
    WorkingTree,
    Staged,
    Base(String),
}

/// A source file that moved or went away.
#[derive(Debug)]
pub enum LifecycleChange {
    Rename { from: String, to: String },
    Delete { path: String },
}

pub enum LifecycleView {
    Rename { from: Seq<char>, to: Seq<char> },
    Delete { path: Seq<char> },
}

impl View for LifecycleChange {
    type V = LifecycleView;

    open spec fn view(&self) -> LifecycleView {
        match self {
            LifecycleChange::Rename { from, to } => LifecycleView::Rename { from: from@, to: to@ },
            LifecycleChange::Delete { path } => LifecycleView::Delete { path: path@ },
        }
    }
}

/// One hunk of a zero-context diff: lines `old_start..` (`old_count` of
/// them) became lines `new_start..` (`new_count` of them).
#[derive(Clone, Copy, Debug, PartialEq, Eq, Structural)]
pub struct DiffHunk {
    pub old_start: u32,
    pub old_count: u32,
    pub new_start: u32,
    pub new_count: u32,
}

/// Computing the new range does not overflow.
pub open spec fn hunk_fits(h: DiffHunk) -> bool {
    h.new_count > 0 ==> h.new_start + h.new_count <= u32::MAX
}

/// The lines a hunk occupies in the new file, if it has any.
pub open spec fn hunk_new_range(h: DiffHunk) -> Option<LineRange> {
    if h.new_count > 0 {
        Some(LineRange { start: h.new_start, end: (h.new_start + h.new_count - 1) as u32 })
    } else {
        None
    }
}

impl DiffHunk {
    pub fn new_range(&self) -> (r: Option<LineRange>)
        requires
            hunk_fits(*self),
        ensures
            r == hunk_new_range(*self),
    {
        if self.new_count > 0 {
            Some(LineRange { start: self.new_start, end: self.new_start + self.new_count - 1 })
        } else {
            None
        }
    }
}

/// Whether every hunk's new lines end within 32-bit line numbers, as the
/// functions that read hunks' new ranges require.
pub fn hunks_fit(hunks: &Vec<DiffHunk>) -> (b: bool)
    ensures
        b == forall|i: int| 0 <= i < hunks@.len() ==> hunk_fits(#[trigger] hunks@[i]),
{
    let mut i: usize = 0;
    while i < hunks.len()
        invariant
            i <= hunks@.len(),
            forall|j: int| 0 <= j < i ==> hunk_fits(#[trigger] hunks@[j]),
        decreases hunks@.len() - i,
    {
        let h = hunks[i];
        if h.new_count > 0 && h.new_start > u32::MAX - h.new_count {
            return false;
        }
        i = i + 1;
    }
    true
}

/// `start,count`, or `start` alone for a count of 1.
pub open spec fn parse_span(value: Seq<char>) -> Option<(u32, u32)> {
    match split_once(value, ',') {
        Some((start, count)) => match parse_unsigned(start, u32::MAX as nat) {
            Some(s) => match parse_unsigned(count, u32::MAX as nat) {
                Some(c) => Some((s as u32, c as u32)),
                None => None,
            },
            None => None,
        },
        None => match parse_unsigned(value, u32::MAX as nat) {
            Some(s) => Some((s as u32, 1)),
            None => None,
        },
    }
}

/// A hunk header line `@@ -<old span> +<new span> @@...`.
pub open spec fn parse_hunk_line(line: Seq<char>) -> Option<DiffHunk> {
    match strip_prefix(line, "@@ -"@) {
        None => None,
        Some(body) => match split_once_str(body, " +"@) {
            None => None,
            Some((old, rest)) => match split_once_str(rest, " @@"@) {
                None => None,
                Some((new, _)) => match parse_span(old) {
                    None => None,
                    Some((old_start, old_count)) => match parse_span(new) {
                        None => None,
                        Some((new_start, new_count)) => Some(
                            DiffHunk { old_start, old_count, new_start, new_count },
                        ),
                    },
                },
            },
        },
    }
}

/// The hunks whose headers appear among `ls`, in order.
pub open spec fn hunks_of_lines(ls: Seq<Seq<char>>) -> Seq<DiffHunk>
    decreases ls.len(),
{
    if ls.len() == 0 {
        seq![]
    } else {
        hunks_of_lines(ls.drop_last()) + match parse_hunk_line(ls.last()) {
            Some(h) => seq![h],
            None => Seq::<DiffHunk>::empty(),
        }
    }
}

/// The hunks of a zero-context unified diff.
pub open spec fn parse_hunks_spec(diff: Seq<char>) -> Seq<DiffHunk> {
    hunks_of_lines(lines(diff))
}

fn parse_span_of(value: &Vec<char>) -> (r: Option<(u32, u32)>)
    ensures
        r == parse_span(value@),
{
    match split_once_on(value, ',') {
        Some((start, count)) => match parse_unsigned_of(&start, u32::MAX) {
            Some(s) => match parse_unsigned_of(&count, u32::MAX) {
                Some(c) => Some((s, c)),
                None => None,
            },
            None => None,
        },
        None => match parse_unsigned_of(value, u32::MAX) {
            Some(s) => Some((s, 1)),
            None => None,
        },
    }
}

fn parse_hunk_line_of(line: &Vec<char>) -> (r: Option<DiffHunk>)
    ensures
        r == parse_hunk_line(line@),
{
    let body = match strip_prefix_of(line, "@@ -") {
        Some(b) => b,
        None => {
            return None;
        },
    };
    proof {
        reveal_strlit(" +");
        reveal_strlit(" @@");
    }
    let (old, rest) = match split_once_str_of(&body, " +") {
        Some(p) => p,
        None => {
            return None;
        },
    };
    let (new, _tail) = match split_once_str_of(&rest, " @@") {
        Some(p) => p,
        None => {
            return None;
        },
    };
    let (old_start, old_count) = match parse_span_of(&old) {
        Some(p) => p,
        None => {
            return None;
        },
    };
    let (new_start, new_count) = match parse_span_of(&new) {
        Some(p) => p,
        None => {
            return None;
        },
    };
    Some(DiffHunk { old_start, old_count, new_start, new_count })
}

/// The hunks of a zero-context unified diff: every line that reads as a hunk
/// header, in order; other lines are skipped.
pub fn parse_hunks(diff: &str) -> (r: Vec<DiffHunk>)
    ensures
        r@ == parse_hunks_spec(diff@),
{
    let chars = chars_of(diff);
    let ls = split_lines(&chars);
    let ghost lv = seqs_view(ls@);
    let mut r: Vec<DiffHunk> = Vec::new();
    let mut i: usize = 0;
    while i < ls.len()
        invariant
            lv == seqs_view(ls@),
            lv == lines(diff@),
            i <= ls@.len(),
            r@ == hunks_of_lines(lv.take(i as int)),
        decreases ls@.len() - i,
    {
        proof {
            assert(lv[i as int] == ls@[i as int]@);
            assert(lv.take(i + 1).drop_last() =~= lv.take(i as int));
            assert(lv.take(i + 1).last() == lv[i as int]);
        }
        let ghost before = r@;
        match parse_hunk_line_of(&ls[i]) {
            Some(h) => {
                r.push(h);
                proof {
                    assert(r@ =~= before + seq![h]);
                }
            },
            None => {
                proof {
                    assert(r@ =~= before + Seq::<DiffHunk>::empty());
                }
            },
        }
        i = i + 1;
    }
    proof {
        assert(lv.take(ls@.len() as int) =~= lv);
    }
    r
}

/// The kind of a line-diff operation.
#[derive(Clone, Copy, Debug, PartialEq, Eq, Structural)]
pub enum DiffKind {
    Equal,
    Delete,
    Insert,
    Replace,
}

/// A line-diff operation: old lines `old_start..old_end` correspond to new
/// lines `new_start..new_end` (indices from 0, ends excluded).
#[derive(Clone, Copy, Debug, PartialEq, Eq, Structural)]
pub struct DiffOp {
    pub kind: DiffKind,
    pub old_start: usize,
    pub old_end: usize,
    pub new_start: usize,
    pub new_end: usize,
}

/// The operations that `similar::TextDiff::from_lines(old, new).ops()` returns.
pub uninterp spec fn line_diff_ops(old: Seq<char>, new: Seq<char>) -> Seq<DiffOp>;

/// An operation's ranges are ordered and lie within texts of the given
/// lengths.
pub open spec fn op_within(op: DiffOp, old_len: nat, new_len: nat) -> bool {
    &&& op.old_start <= op.old_end <= old_len
    &&& op.new_start <= op.new_end <= new_len
}

/// How many characters of `s` end a line: each `\n` and each `\r`.
pub open spec fn break_count(s: Seq<char>) -> nat
    decreases s.len(),
{
    if s.len() == 0 {
        0
    } else {
        break_count(s.drop_last()) + if s.last() == '\n' || s.last() == '\r' {
            1nat
        } else {
            0nat
        }
    }
}

/// A bound on the lines `similar` splits a text into: every line but the
/// last ends at a `\n` or `\r` (`\r\n` ending one line).
pub open spec fn line_bound(s: Seq<char>) -> nat {
    break_count(s) + 1
}

/// `break_count` of a text.
pub fn break_count_of(s: &str) -> (n: usize)
    ensures
        n == break_count(s@),
{
    let cs = crate::text::chars_of(s);
    let mut n: usize = 0;
    let mut i: usize = 0;
    while i < cs.len()
        invariant
            cs@ == s@,
            i <= cs@.len(),
            n == break_count(cs@.take(i as int)),
            n <= i,
        decreases cs@.len() - i,
    {
        proof {
            assert(cs@.take(i + 1).drop_last() =~= cs@.take(i as int));
        }
        if cs[i] == '\n' || cs[i] == '\r' {
            n = n + 1;
        }
        i = i + 1;
    }
    proof {
        assert(cs@.take(cs@.len() as int) =~= cs@);
    }
    n
}

/// Diffs two texts line by line with `similar` (`TextDiff::from_lines`,
/// which splits after each `\n`, `\r\n` or lone `\r`). Claimed: the result
/// is the named list of operations; each range is ordered and indexes those
/// lines, so it ends no later than the number of lines of its text.
#[verifier::external_body]
fn text_diff_ops(old: &str, new: &str) -> (r: Vec<DiffOp>)
    ensures
        r@ == line_diff_ops(old@, new@),
        forall|i: int| 0 <= i < r@.len() ==> op_within(
            #[trigger] r@[i],
            line_bound(old@),
            line_bound(new@),
        ),
{
    TextDiff::from_lines(old, new).ops().iter().map(|op| {
        let (tag, o, n) = op.as_tag_tuple();
        let kind = match tag {
            DiffTag::Equal => DiffKind::Equal,
            DiffTag::Delete => DiffKind::Delete,
            DiffTag::Insert => DiffKind::Insert,
            DiffTag::Replace => DiffKind::Replace,
        };
        DiffOp { kind, old_start: o.start, old_end: o.end, new_start: n.start, new_end: n.end }
    }).collect()
}

/// The hunk of a changed operation, with lines counted from 1.
pub open spec fn op_hunk(op: DiffOp) -> DiffHunk {
    DiffHunk {
        old_start: ((op.old_start as u32) + 1) as u32,
        old_count: (op.old_end - op.old_start) as u32,
        new_start: ((op.new_start as u32) + 1) as u32,
        new_count: (op.new_end - op.new_start) as u32,
    }
}

/// Line numbers from 1 stay within `u32`.
pub open spec fn op_fits(op: DiffOp) -> bool {
    &&& op.old_start <= op.old_end
    &&& op.new_start <= op.new_end
    &&& (op.old_start as u32) < u32::MAX
    &&& (op.new_start as u32) < u32::MAX
}

/// The hunks of the operations that change something, in order.
pub open spec fn hunks_of_ops(ops: Seq<DiffOp>) -> Seq<DiffHunk>
    decreases ops.len(),
{
    if ops.len() == 0 {
        seq![]
    } else {
        hunks_of_ops(ops.drop_last()) + if ops.last().kind == DiffKind::Equal {
            Seq::<DiffHunk>::empty()
        } else {
            seq![op_hunk(ops.last())]
        }
    }
}

/// Hunks from line-diff operations: every operation but the equal ones,
/// with its ranges turned into 1-based starts and counts.
pub fn hunks_from_ops(ops: &Vec<DiffOp>) -> (r: Vec<DiffHunk>)
    requires
        forall|i: int| 0 <= i < ops@.len() ==> op_fits(#[trigger] ops@[i]),
    ensures
        r@ == hunks_of_ops(ops@),
        forall|a: nat, b: nat|
            #![trigger ops_cover(ops@, a, b)]
            ops_cover(ops@, a, b) && a < u32::MAX && b < u32::MAX ==> old_lines_changed(r@)
                + equal_lines(ops@) == a && new_lines_changed(r@) + equal_lines(ops@) == b,
{
    let mut r: Vec<DiffHunk> = Vec::new();
    let mut i: usize = 0;
    while i < ops.len()
        invariant
            forall|j: int| 0 <= j < ops@.len() ==> op_fits(#[trigger] ops@[j]),
            i <= ops@.len(),
            r@ == hunks_of_ops(ops@.take(i as int)),
        decreases ops@.len() - i,
    {
        let op = ops[i];
        proof {
            assert(op_fits(ops@[i as int]));
            assert(ops@.take(i + 1).drop_last() =~= ops@.take(i as int));
            assert(ops@.take(i + 1).last() == op);
        }
        let ghost before = r@;
        if op.kind != DiffKind::Equal {
            let h = DiffHunk {
                old_start: (op.old_start as u32) + 1,
                old_count: (op.old_end - op.old_start) as u32,
                new_start: (op.new_start as u32) + 1,
                new_count: (op.new_end - op.new_start) as u32,
            };
            r.push(h);
            proof {
                assert(h == op_hunk(op));
                assert(r@ =~= before + seq![op_hunk(op)]);
            }
        } else {
            proof {
                assert(r@ =~= before + Seq::<DiffHunk>::empty());
            }
        }
        i = i + 1;
    }
    proof {
        assert(ops@.take(ops@.len() as int) =~= ops@);
        assert forall|a: nat, b: nat|
            #![trigger ops_cover(ops@, a, b)]
            ops_cover(ops@, a, b) && a < u32::MAX && b < u32::MAX implies old_lines_changed(r@)
                + equal_lines(ops@) == a && new_lines_changed(r@) + equal_lines(ops@) == b by {
            lemma_hunks_account_for_lines(ops@, a, b);
        }
    }
    r
}

/// Each hunk of operations within texts shorter than `u32::MAX` lines has
/// line numbers that stay within `u32`.
pub proof fn lemma_hunks_of_ops_fit(ops: Seq<DiffOp>, old_len: nat, new_len: nat)
    requires
        old_len < u32::MAX,
        new_len < u32::MAX,
        forall|i: int| 0 <= i < ops.len() ==> op_within(#[trigger] ops[i], old_len, new_len),
    ensures
        forall|i: int| 0 <= i < hunks_of_ops(ops).len() ==> hunk_fits(#[trigger] hunks_of_ops(ops)[i])
            && (hunks_of_ops(ops)[i].old_count > 0 ==> hunks_of_ops(ops)[i].old_start
            + hunks_of_ops(ops)[i].old_count <= u32::MAX),
    decreases ops.len(),
{
    if ops.len() > 0 {
        let d = ops.drop_last();
        assert forall|i: int| 0 <= i < d.len() implies op_within(#[trigger] d[i], old_len, new_len) by {
            assert(d[i] == ops[i]);
        }
        lemma_hunks_of_ops_fit(d, old_len, new_len);
        let op = ops.last();
        assert(op_within(ops[ops.len() - 1], old_len, new_len));
        let h = op_hunk(op);
        assert(h.old_start == op.old_start + 1);
        assert(h.old_count == op.old_end - op.old_start);
        assert(h.new_start == op.new_start + 1);
        assert(h.new_count == op.new_end - op.new_start);
        let hs = hunks_of_ops(ops);
        let hd = hunks_of_ops(d);
        assert forall|i: int| 0 <= i < hs.len() implies hunk_fits(#[trigger] hs[i]) && (hs[i].old_count
            > 0 ==> hs[i].old_start + hs[i].old_count <= u32::MAX) by {
            if i < hd.len() {
                assert(hs[i] == hd[i]);
            } else {
                assert(hs[i] == h);
            }
        }
    }
}

/// The operations run one after another from the first line of each text:
/// each starts where the one before ended, no range runs backwards, and an
/// equal operation spans as many old lines as new ones.
pub open spec fn ops_chained(ops: Seq<DiffOp>) -> bool {
    forall|i: int| 0 <= i < ops.len() ==> #[trigger] op_links(ops, i)
}

/// Operation `i` runs forwards from where operation `i - 1` ended (from the
/// first lines for `i == 0`), over as many old as new lines when equal.
pub open spec fn op_links(ops: Seq<DiffOp>, i: int) -> bool {
    &&& ops[i].old_start <= ops[i].old_end
    &&& ops[i].new_start <= ops[i].new_end
    &&& (ops[i].kind == DiffKind::Equal ==> ops[i].old_end - ops[i].old_start == ops[i].new_end
        - ops[i].new_start)
    &&& ops[i].old_start == (if i == 0 {
        0
    } else {
        ops[i - 1].old_end
    })
    &&& ops[i].new_start == (if i == 0 {
        0
    } else {
        ops[i - 1].new_end
    })
}

/// The operations cover a text of `old_len` lines and one of `new_len`
/// lines from first line to last.
pub open spec fn ops_cover(ops: Seq<DiffOp>, old_len: nat, new_len: nat) -> bool {
    &&& ops_chained(ops)
    &&& if ops.len() == 0 {
        old_len == 0 && new_len == 0
    } else {
        ops.last().old_end == old_len && ops.last().new_end == new_len
    }
}

/// How many old lines the hunks replace, all together.
pub open spec fn old_lines_changed(hs: Seq<DiffHunk>) -> int
    decreases hs.len(),
{
    if hs.len() == 0 {
        0
    } else {
        old_lines_changed(hs.drop_last()) + hs.last().old_count
    }
}

/// How many new lines the hunks put in, all together.
pub open spec fn new_lines_changed(hs: Seq<DiffHunk>) -> int
    decreases hs.len(),
{
    if hs.len() == 0 {
        0
    } else {
        new_lines_changed(hs.drop_last()) + hs.last().new_count
    }
}

/// How many lines the equal operations keep.
pub open spec fn equal_lines(ops: Seq<DiffOp>) -> int
    decreases ops.len(),
{
    if ops.len() == 0 {
        0
    } else {
        equal_lines(ops.drop_last()) + if ops.last().kind == DiffKind::Equal {
            ops.last().old_end - ops.last().old_start
        } else {
            0
        }
    }
}

/// Without its last operation, a chain covers the texts up to where that
/// operation starts.
proof fn lemma_chained_drop_last(ops: Seq<DiffOp>, old_len: nat, new_len: nat)
    requires
        ops_cover(ops, old_len, new_len),
        ops.len() > 0,
    ensures
        ops_cover(ops.drop_last(), ops.last().old_start as nat, ops.last().new_start as nat),
        ops.last().old_start <= ops.last().old_end == old_len,
        ops.last().new_start <= ops.last().new_end == new_len,
        ops.last().kind == DiffKind::Equal ==> ops.last().old_end - ops.last().old_start
            == ops.last().new_end - ops.last().new_start,
{
    let n = ops.len() - 1;
    let d = ops.drop_last();
    assert(op_links(ops, n));
    assert forall|i: int| 0 <= i < d.len() implies #[trigger] op_links(d, i) by {
        assert(op_links(ops, i));
        assert(d[i] == ops[i]);
        if i > 0 {
            assert(d[i - 1] == ops[i - 1]);
        }
    }
    if n > 0 {
        assert(d.last() == ops[n - 1]);
    }
}

/// The hunks of operations that cover two texts account for every line:
/// the lines they replace and the lines kept equal make up the old text,
/// the lines they put in and the lines kept equal make up the new one (so
/// their counts change the length by exactly the difference of the texts'
/// lengths, deletions included); the hunks come in order without
/// overlapping, within both texts; and before each hunk the same number of
/// unchanged lines stands in both texts.
pub proof fn lemma_hunks_account_for_lines(ops: Seq<DiffOp>, old_len: nat, new_len: nat)
    requires
        ops_cover(ops, old_len, new_len),
        old_len < u32::MAX,
        new_len < u32::MAX,
    ensures
        old_lines_changed(hunks_of_ops(ops)) + equal_lines(ops) == old_len,
        new_lines_changed(hunks_of_ops(ops)) + equal_lines(ops) == new_len,
        new_lines_changed(hunks_of_ops(ops)) - old_lines_changed(hunks_of_ops(ops)) == new_len
            - old_len,
        forall|i: int|
            0 <= i < hunks_of_ops(ops).len() ==> (#[trigger] hunks_of_ops(ops)[i]).old_start
                - old_lines_changed(hunks_of_ops(ops).take(i)) == hunks_of_ops(ops)[i].new_start
                - new_lines_changed(hunks_of_ops(ops).take(i)),
        forall|i: int|
            0 <= i < hunks_of_ops(ops).len() ==> (#[trigger] hunks_of_ops(ops)[i]).old_start >= 1
                && hunks_of_ops(ops)[i].new_start >= 1 && hunks_of_ops(ops)[i].old_start - 1
                + hunks_of_ops(ops)[i].old_count <= old_len && hunks_of_ops(ops)[i].new_start - 1
                + hunks_of_ops(ops)[i].new_count <= new_len,
        forall|i: int|
            0 <= i < hunks_of_ops(ops).len() - 1 ==> (#[trigger] hunks_of_ops(ops)[i]).old_start
                + hunks_of_ops(ops)[i].old_count <= hunks_of_ops(ops)[i + 1].old_start
                && hunks_of_ops(ops)[i].new_start + hunks_of_ops(ops)[i].new_count
                <= hunks_of_ops(ops)[i + 1].new_start,
    decreases ops.len(),
{
    if ops.len() > 0 {
        let d = ops.drop_last();
        let op = ops.last();
        lemma_chained_drop_last(ops, old_len, new_len);
        lemma_hunks_account_for_lines(d, op.old_start as nat, op.new_start as nat);
        let hd = hunks_of_ops(d);
        let hs = hunks_of_ops(ops);
        if op.kind == DiffKind::Equal {
            assert(hs =~= hd);
        } else {
            let h = op_hunk(op);
            assert(h.old_start == op.old_start + 1);
            assert(h.new_start == op.new_start + 1);
            assert(h.old_count == op.old_end - op.old_start);
            assert(h.new_count == op.new_end - op.new_start);
            assert(hs =~= hd.push(h));
            assert(hs.drop_last() =~= hd);
            assert forall|i: int| 0 <= i < hs.len() implies (#[trigger] hs[i]).old_start
                - old_lines_changed(hs.take(i)) == hs[i].new_start - new_lines_changed(
                hs.take(i),
            ) by {
                if i < hd.len() {
                    assert(hs[i] == hd[i]);
                    assert(hs.take(i) =~= hd.take(i));
                } else {
                    assert(hs.take(i) =~= hd);
                }
            }
            assert forall|i: int| 0 <= i < hs.len() implies (#[trigger] hs[i]).old_start >= 1
                && hs[i].new_start >= 1 && hs[i].old_start - 1 + hs[i].old_count <= old_len
                && hs[i].new_start - 1 + hs[i].new_count <= new_len by {
                if i < hd.len() {
                    assert(hs[i] == hd[i]);
                }
            }
            assert forall|i: int| 0 <= i < hs.len() - 1 implies (#[trigger] hs[i]).old_start
                + hs[i].old_count <= hs[i + 1].old_start && hs[i].new_start + hs[i].new_count
                <= hs[i + 1].new_start by {
                assert(hs[i] == hd[i]);
                if i + 1 < hd.len() {
                    assert(hs[i + 1] == hd[i + 1]);
                } else {
                    assert(hs[i + 1] == h);
                }
            }
        }
    }
}

/// Old line `x` (from 0) lies in the hunk.
pub open spec fn hunk_has_old(h: DiffHunk, x: int) -> bool {
    h.old_start - 1 <= x < h.old_start - 1 + h.old_count
}

/// New line `x` (from 0) lies in the hunk.
pub open spec fn hunk_has_new(h: DiffHunk, x: int) -> bool {
    h.new_start - 1 <= x < h.new_start - 1 + h.new_count
}

/// The operation changes old line `x`.
pub open spec fn op_changes_old(op: DiffOp, x: int) -> bool {
    op.kind != DiffKind::Equal && op.old_start <= x < op.old_end
}

/// The operation changes new line `x`.
pub open spec fn op_changes_new(op: DiffOp, x: int) -> bool {
    op.kind != DiffKind::Equal && op.new_start <= x < op.new_end
}

/// Old line `x` lies in one of the hunks.
pub open spec fn in_hunks_old(hs: Seq<DiffHunk>, x: int) -> bool {
    exists|i: int| 0 <= i < hs.len() && #[trigger] hunk_has_old(hs[i], x)
}

/// New line `x` lies in one of the hunks.
pub open spec fn in_hunks_new(hs: Seq<DiffHunk>, x: int) -> bool {
    exists|i: int| 0 <= i < hs.len() && #[trigger] hunk_has_new(hs[i], x)
}

/// Some operation changes old line `x`.
pub open spec fn changed_old(ops: Seq<DiffOp>, x: int) -> bool {
    exists|o: int| 0 <= o < ops.len() && #[trigger] op_changes_old(ops[o], x)
}

/// Some operation changes new line `x`.
pub open spec fn changed_new(ops: Seq<DiffOp>, x: int) -> bool {
    exists|o: int| 0 <= o < ops.len() && #[trigger] op_changes_new(ops[o], x)
}

/// The hunks cover exactly the lines that the operations change: an old
/// (new) line lies in some hunk if and only if some operation other than an
/// equal one deletes or replaces (inserts or replaces) it.
pub proof fn lemma_hunks_cover_changes(ops: Seq<DiffOp>, old_len: nat, new_len: nat)
    requires
        old_len < u32::MAX,
        new_len < u32::MAX,
        forall|i: int| 0 <= i < ops.len() ==> op_within(#[trigger] ops[i], old_len, new_len),
    ensures
        forall|x: int| #[trigger] in_hunks_old(hunks_of_ops(ops), x) == changed_old(ops, x),
        forall|x: int| #[trigger] in_hunks_new(hunks_of_ops(ops), x) == changed_new(ops, x),
    decreases ops.len(),
{
    if ops.len() > 0 {
        let n = ops.len() - 1;
        let d = ops.drop_last();
        let op = ops.last();
        assert(ops[n] == op);
        assert forall|i: int| 0 <= i < d.len() implies op_within(#[trigger] d[i], old_len, new_len) by {
            assert(d[i] == ops[i]);
        }
        lemma_hunks_cover_changes(d, old_len, new_len);
        assert(op_within(ops[n], old_len, new_len));
        let hd = hunks_of_ops(d);
        let hs = hunks_of_ops(ops);
        let h = op_hunk(op);
        if op.kind != DiffKind::Equal {
            assert(h.old_start == op.old_start + 1);
            assert(h.new_start == op.new_start + 1);
            assert(h.old_count == op.old_end - op.old_start);
            assert(h.new_count == op.new_end - op.new_start);
            assert(hs =~= hd.push(h));
        } else {
            assert(hs =~= hd);
        }
        assert forall|x: int| #[trigger] in_hunks_old(hs, x) == changed_old(ops, x) by {
            assert(in_hunks_old(hd, x) == changed_old(d, x));
            if exists|i: int| 0 <= i < hs.len() && #[trigger] hunk_has_old(hs[i], x) {
                let i = choose|i: int| 0 <= i < hs.len() && #[trigger] hunk_has_old(hs[i], x);
                if i < hd.len() {
                    assert(hs[i] == hd[i]);
                    let o = choose|o: int| 0 <= o < d.len() && #[trigger] op_changes_old(d[o], x);
                    assert(ops[o] == d[o]);
                } else {
                    assert(op_changes_old(ops[n], x));
                }
            }
            if exists|o: int| 0 <= o < ops.len() && #[trigger] op_changes_old(ops[o], x) {
                let o = choose|o: int| 0 <= o < ops.len() && #[trigger] op_changes_old(ops[o], x);
                if o < n {
                    assert(ops[o] == d[o]);
                    assert(op_changes_old(d[o], x));
                    let i = choose|i: int| 0 <= i < hd.len() && #[trigger] hunk_has_old(hd[i], x);
                    assert(hs[i] == hd[i]);
                } else {
                    assert(hunk_has_old(hs[hd.len() as int], x));
                }
            }
        }
        assert forall|x: int| #[trigger] in_hunks_new(hs, x) == changed_new(ops, x) by {
            assert(in_hunks_new(hd, x) == changed_new(d, x));
            if exists|i: int| 0 <= i < hs.len() && #[trigger] hunk_has_new(hs[i], x) {
                let i = choose|i: int| 0 <= i < hs.len() && #[trigger] hunk_has_new(hs[i], x);
                if i < hd.len() {
                    assert(hs[i] == hd[i]);
                    let o = choose|o: int| 0 <= o < d.len() && #[trigger] op_changes_new(d[o], x);
                    assert(ops[o] == d[o]);
                } else {
                    assert(op_changes_new(ops[n], x));
                }
            }
            if exists|o: int| 0 <= o < ops.len() && #[trigger] op_changes_new(ops[o], x) {
                let o = choose|o: int| 0 <= o < ops.len() && #[trigger] op_changes_new(ops[o], x);
                if o < n {
                    assert(ops[o] == d[o]);
                    assert(op_changes_new(d[o], x));
                    let i = choose|i: int| 0 <= i < hd.len() && #[trigger] hunk_has_new(hd[i], x);
                    assert(hs[i] == hd[i]);
                } else {
                    assert(hunk_has_new(hs[hd.len() as int], x));
                }
            }
        }
    }
}

/// The hunks that turn `old` into `new`, from a line diff.
pub fn diff_hunks_between(old: &str, new: &str) -> (r: Vec<DiffHunk>)
    requires
        line_bound(old@) < u32::MAX,
        line_bound(new@) < u32::MAX,
    ensures
        r@ == hunks_of_ops(line_diff_ops(old@, new@)),
        forall|i: int| 0 <= i < r@.len() ==> hunk_fits(#[trigger] r@[i]) && (r@[i].old_count > 0
            ==> r@[i].old_start + r@[i].old_count <= u32::MAX),
        forall|x: int| #[trigger] in_hunks_old(r@, x) == changed_old(line_diff_ops(old@, new@), x),
        forall|x: int| #[trigger] in_hunks_new(r@, x) == changed_new(line_diff_ops(old@, new@), x),
{
    let ops = text_diff_ops(old, new);
    proof {
        lemma_hunks_cover_changes(ops@, line_bound(old@), line_bound(new@));
        assert forall|i: int| 0 <= i < ops@.len() implies op_fits(#[trigger] ops@[i]) by {
            assert(op_within(ops@[i], line_bound(old@), line_bound(new@)));
        }
        lemma_hunks_of_ops_fit(ops@, line_bound(old@), line_bound(new@));
    }
    hunks_from_ops(&ops)
}


/// The text `String::from_utf8_lossy` decodes from `b`.
pub uninterp spec fn lossy_text(b: Seq<u8>) -> Seq<char>;

/// `String::from_utf8_lossy`. Claimed: the result is the named decoding,
/// and for valid UTF-8 it is the text that the bytes encode (std documents
/// that valid input comes back unchanged).
#[verifier::external_body]
fn lossy(bytes: &[u8]) -> (s: String)
    ensures
        s@ == lossy_text(bytes@),
        vstd::utf8::valid_utf8(bytes@) ==> s@ == vstd::utf8::decode_utf8(bytes@),
{
    String::from_utf8_lossy(bytes).into_owned()
}

/// Index of the first NUL at or after `i`, or `b.len()`.
pub open spec fn find_nul_from(b: Seq<u8>, i: int) -> int
    decreases b.len() - i,
{
    if i < 0 || i >= b.len() {
        b.len() as int
    } else if b[i] == 0 {
        i
    } else {
        find_nul_from(b, i + 1)
    }
}

pub proof fn lemma_find_nul(b: Seq<u8>, i: int)
    requires
        0 <= i <= b.len(),
    ensures
        i <= find_nul_from(b, i) <= b.len(),
        forall|j: int| i <= j < find_nul_from(b, i) ==> b[j] != 0,
        find_nul_from(b, i) < b.len() ==> b[find_nul_from(b, i)] == 0,
    decreases b.len() - i,
{
    if i < b.len() && b[i] != 0 {
        lemma_find_nul(b, i + 1);
    }
}

/// The non-empty NUL-separated fields of `b` from index `i` on.
pub open spec fn nul_fields_from(b: Seq<u8>, i: int) -> Seq<Seq<u8>>
    decreases b.len() + 1 - i,
{
    if i < 0 || i >= b.len() {
        seq![]
    } else {
        let k = find_nul_from(b, i);
        proof {
            lemma_find_nul(b, i);
        }
        let f = b.subrange(i, k);
        (if f.len() > 0 {
            seq![f]
        } else {
            Seq::<Seq<u8>>::empty()
        }) + nul_fields_from(b, k + 1)
    }
}

/// The non-empty NUL-separated fields of `b`.
pub open spec fn nul_fields(b: Seq<u8>) -> Seq<Seq<u8>> {
    nul_fields_from(b, 0)
}

pub open spec fn bytes_view(v: Seq<Vec<u8>>) -> Seq<Seq<u8>> {
    v.map_values(|x: Vec<u8>| x@)
}

fn nul_fields_of(b: &[u8]) -> (r: Vec<Vec<u8>>)
    ensures
        bytes_view(r@) == nul_fields(b@),
        forall|i: int| 0 <= i < r@.len() ==> (#[trigger] r@[i])@.len() > 0,
{
    let mut r: Vec<Vec<u8>> = Vec::new();
    let mut i: usize = 0;
    while i < b.len()
        invariant
            i <= b@.len(),
            bytes_view(r@) + nul_fields_from(b@, i as int) == nul_fields(b@),
            forall|j: int| 0 <= j < r@.len() ==> (#[trigger] r@[j])@.len() > 0,
        decreases b@.len() - i,
    {
        let mut f: Vec<u8> = Vec::new();
        let mut k: usize = i;
        while k < b.len() && b[k] != 0
            invariant
                i <= k <= b@.len(),
                forall|j: int| i <= j < k ==> b@[j] != 0,
                f@ == b@.subrange(i as int, k as int),
            decreases b@.len() - k,
        {
            f.push(b[k]);
            k = k + 1;
            proof {
                assert(f@ =~= b@.subrange(i as int, k as int));
            }
        }
        proof {
            lemma_find_nul(b@, i as int);
            if find_nul_from(b@, i as int) < k {
                assert(b@[find_nul_from(b@, i as int)] == 0);
            }
            if k < find_nul_from(b@, i as int) {
                assert(b@[k as int] == 0);
            }
        }
        let ghost before = bytes_view(r@);
        if f.len() > 0 {
            let ghost fv = f@;
            r.push(f);
            proof {
                assert(bytes_view(r@) =~= before + seq![fv]);
            }
        } else {
            proof {
                assert(bytes_view(r@) =~= before + Seq::<Seq<u8>>::empty());
            }
        }
        proof {
            if k >= b@.len() {
                assert(nul_fields_from(b@, k + 1) =~= Seq::<Seq<u8>>::empty());
                assert(nul_fields_from(b@, b@.len() as int) =~= Seq::<Seq<u8>>::empty());
            }
        }
        i = if k < b.len() {
            k + 1
        } else {
            k
        };
    }
    proof {
        assert(bytes_view(r@) + nul_fields_from(b@, i as int) =~= bytes_view(r@));
    }
    r
}

/// The paths of a `git diff --name-status -z` listing: after each status
/// field, one path, or two for a rename or copy (`R…`/`C…`), of which the
/// second counts.
pub open spec fn name_status_from(fs: Seq<Seq<u8>>, i: int) -> Seq<Seq<char>>
    decreases fs.len() - i,
{
    if i < 0 || i + 1 >= fs.len() {
        seq![]
    } else if fs[i].len() > 0 && (fs[i][0] == 82 || fs[i][0] == 67) {
        if i + 2 < fs.len() {
            seq![lossy_text(fs[i + 2])] + name_status_from(fs, i + 3)
        } else {
            seq![]
        }
    } else {
        seq![lossy_text(fs[i + 1])] + name_status_from(fs, i + 2)
    }
}

pub open spec fn parse_name_status_spec(bytes: Seq<u8>) -> Seq<Seq<char>> {
    name_status_from(nul_fields(bytes), 0)
}

/// The paths of a `git diff --name-status -z` listing.
pub fn parse_name_status(bytes: &[u8]) -> (r: Vec<String>)
    ensures
        strings_view(r@) == parse_name_status_spec(bytes@),
{
    let fields = nul_fields_of(bytes);
    let ghost fv = bytes_view(fields@);
    let mut r: Vec<String> = Vec::new();
    let mut i: usize = 0;
    let mut done = false;
    while !done && i < fields.len()
        invariant
            fv == bytes_view(fields@),
            fv == nul_fields(bytes@),
            i <= fields@.len() + 2,
            !done ==> strings_view(r@) + name_status_from(fv, i as int) == parse_name_status_spec(
                bytes@,
            ),
            done ==> strings_view(r@) == parse_name_status_spec(bytes@),
        decreases fields@.len() + 3 - i + (if done {
            0int
        } else {
            1int
        }),
    {
        let ghost before = strings_view(r@);
        proof {
            assert(fv[i as int] == fields@[i as int]@);
        }
        let rename = fields[i].len() > 0 && (fields[i][0] == 82 || fields[i][0] == 67);
        if i + 1 >= fields.len() {
            done = true;
            proof {
                assert(strings_view(r@) =~= before + Seq::<Seq<char>>::empty());
            }
        } else if rename {
            if i + 2 < fields.len() {
                let p = lossy(fields[i + 2].as_slice());
                r.push(p);
                proof {
                    assert(fv[i + 2] == fields@[i + 2]@);
                    assert(strings_view(r@) =~= before.push(p@));
                    assert(strings_view(r@) + name_status_from(fv, i + 3) =~= before
                        + name_status_from(fv, i as int));
                }
                i = i + 3;
            } else {
                done = true;
                proof {
                    assert(strings_view(r@) =~= before + Seq::<Seq<char>>::empty());
                }
            }
        } else {
            let p = lossy(fields[i + 1].as_slice());
            r.push(p);
            proof {
                assert(fv[i + 1] == fields@[i + 1]@);
                assert(strings_view(r@) =~= before.push(p@));
                assert(strings_view(r@) + name_status_from(fv, i + 2) =~= before + name_status_from(
                    fv,
                    i as int,
                ));
            }
            i = i + 2;
        }
    }
    proof {
        if !done {
            assert(strings_view(r@) + name_status_from(fv, i as int) =~= strings_view(r@));
        }
    }
    r
}

/// Whether the two status letters of a porcelain entry include `letter`.
pub open spec fn status_has(f: Seq<u8>, letter: u8) -> bool {
    f[0] == letter || f[1] == letter
}

/// Git writes porcelain status letters and the space after them in ASCII.
pub open spec fn porcelain_ascii(fs: Seq<Seq<u8>>) -> bool {
    forall|i: int, j: int| 0 <= i < fs.len() && 0 <= j < 3 && j < fs[i].len() ==> #[trigger] fs[i][j]
        < 128
}

/// The paths of a `git status --porcelain=v1 -z` listing: each entry `XY
/// path` names its path; a rename or copy entry is followed by its old path,
/// which is skipped. Entries shorter than four bytes are skipped.
pub open spec fn porcelain_paths_from(fs: Seq<Seq<u8>>, i: int) -> Seq<Seq<char>>
    decreases fs.len() + 1 - i,
{
    if i < 0 || i >= fs.len() {
        seq![]
    } else if fs[i].len() < 4 {
        porcelain_paths_from(fs, i + 1)
    } else {
        let step = if status_has(fs[i], 82) || status_has(fs[i], 67) {
            2int
        } else {
            1int
        };
        seq![lossy_text(fs[i].subrange(3, fs[i].len() as int))] + porcelain_paths_from(
            fs,
            i + step,
        )
    }
}

/// The changes of a `git status --porcelain=v1 -z` listing that move or
/// delete a file: a rename entry names its new path and is followed by its
/// old one; an entry with a `D` status is a deletion.
pub open spec fn lifecycle_from(fs: Seq<Seq<u8>>, i: int) -> Seq<LifecycleView>
    decreases fs.len() - i,
{
    if i < 0 || i >= fs.len() {
        seq![]
    } else if fs[i].len() < 4 {
        lifecycle_from(fs, i + 1)
    } else {
        let path = lossy_text(fs[i].subrange(3, fs[i].len() as int));
        if status_has(fs[i], 82) && i + 1 < fs.len() {
            seq![LifecycleView::Rename { from: lossy_text(fs[i + 1]), to: path }] + lifecycle_from(
                fs,
                i + 2,
            )
        } else {
            (if status_has(fs[i], 68) {
                seq![LifecycleView::Delete { path }]
            } else {
                Seq::<LifecycleView>::empty()
            }) + lifecycle_from(fs, i + 1)
        }
    }
}

pub open spec fn changes_view(v: Seq<LifecycleChange>) -> Seq<LifecycleView> {
    v.map_values(|c: LifecycleChange| c@)
}

/// Whether the status letters and the space after them are ASCII in every
/// entry of a porcelain listing.
pub fn is_porcelain_ascii(bytes: &[u8]) -> (b: bool)
    ensures
        b == porcelain_ascii(nul_fields(bytes@)),
{
    let fields = nul_fields_of(bytes);
    let ghost fv = bytes_view(fields@);
    let mut i: usize = 0;
    while i < fields.len()
        invariant
            fv == bytes_view(fields@),
            fv == nul_fields(bytes@),
            i <= fields@.len(),
            forall|a: int, j: int| 0 <= a < i && 0 <= j < 3 && j < fv[a].len() ==> #[trigger] fv[a][j]
                < 128,
        decreases fields@.len() - i,
    {
        proof {
            assert(fv[i as int] == fields@[i as int]@);
        }
        let f = &fields[i];
        let mut j: usize = 0;
        while j < 3 && j < f.len()
            invariant
                fv == nul_fields(bytes@),
                i < fv.len(),
                fv[i as int] == f@,
                j <= 3,
                forall|m: int| 0 <= m < j && m < f@.len() ==> f@[m] < 128,
            decreases 3 - j,
        {
            if f[j] >= 128 {
                proof {
                    assert(fv[i as int][j as int] >= 128);
                }
                return false;
            }
            j = j + 1;
        }
        i = i + 1;
    }
    true
}

/// The paths that a `git status --porcelain=v1 -z` listing reports.
pub fn porcelain_paths(bytes: &[u8]) -> (r: Vec<String>)
    requires
        porcelain_ascii(nul_fields(bytes@)),
    ensures
        strings_view(r@) == porcelain_paths_from(nul_fields(bytes@), 0),
{
    let fields = nul_fields_of(bytes);
    let ghost fv = bytes_view(fields@);
    let mut r: Vec<String> = Vec::new();
    let mut i: usize = 0;
    while i < fields.len()
        invariant
            fv == bytes_view(fields@),
            fv == nul_fields(bytes@),
            strings_view(r@) + porcelain_paths_from(fv, i as int) == porcelain_paths_from(fv, 0),
        decreases fields@.len() - i,
    {
        let ghost before = strings_view(r@);
        proof {
            assert(fv[i as int] == fields@[i as int]@);
        }
        let f = &fields[i];
        if f.len() < 4 {
            i = i + 1;
        } else {
            let p = lossy(crate::text::byte_range(f, 3, f.len()).as_slice());
            r.push(p);
            let rename = f[0] == 82 || f[1] == 82 || f[0] == 67 || f[1] == 67;
            proof {
                assert(strings_view(r@) =~= before.push(p@));
            }
            if rename {
                proof {
                    assert(strings_view(r@) + porcelain_paths_from(fv, i + 2) =~= before
                        + porcelain_paths_from(fv, i as int));
                }
                i = if i + 1 < fields.len() {
                    i + 2
                } else {
                    fields.len()
                };
                proof {
                    assert(porcelain_paths_from(fv, fv.len() + 1int) =~= porcelain_paths_from(
                        fv,
                        fv.len() as int,
                    ));
                }
            } else {
                proof {
                    assert(strings_view(r@) + porcelain_paths_from(fv, i + 1) =~= before
                        + porcelain_paths_from(fv, i as int));
                }
                i = i + 1;
            }
        }
    }
    proof {
        assert(strings_view(r@) + porcelain_paths_from(fv, i as int) =~= strings_view(r@));
    }
    r
}

/// The moves and deletions that a `git status --porcelain=v1 -z` listing
/// reports.
pub fn lifecycle_changes_of(bytes: &[u8]) -> (r: Vec<LifecycleChange>)
    requires
        porcelain_ascii(nul_fields(bytes@)),
    ensures
        changes_view(r@) == lifecycle_from(nul_fields(bytes@), 0),
{
    let fields = nul_fields_of(bytes);
    let ghost fv = bytes_view(fields@);
    let mut r: Vec<LifecycleChange> = Vec::new();
    let mut i: usize = 0;
    while i < fields.len()
        invariant
            fv == bytes_view(fields@),
            fv == nul_fields(bytes@),
            changes_view(r@) + lifecycle_from(fv, i as int) == lifecycle_from(fv, 0),
        decreases fields@.len() - i,
    {
        let ghost before = changes_view(r@);
        proof {
            assert(fv[i as int] == fields@[i as int]@);
        }
        let f = &fields[i];
        if f.len() < 4 {
            i = i + 1;
        } else {
            let path = lossy(crate::text::byte_range(f, 3, f.len()).as_slice());
            if (f[0] == 82 || f[1] == 82) && i + 1 < fields.len() {
                let from = lossy(fields[i + 1].as_slice());
                let ghost c = LifecycleView::Rename { from: from@, to: path@ };
                r.push(LifecycleChange::Rename { from, to: path });
                proof {
                    assert(fv[i + 1] == fields@[i + 1]@);
                    assert(changes_view(r@) =~= before.push(c));
                    assert(changes_view(r@) + lifecycle_from(fv, i + 2) =~= before + lifecycle_from(
                        fv,
                        i as int,
                    ));
                }
                i = i + 2;
            } else {
                if f[0] == 68 || f[1] == 68 {
                    let ghost c = LifecycleView::Delete { path: path@ };
                    r.push(LifecycleChange::Delete { path });
                    proof {
                        assert(changes_view(r@) =~= before.push(c));
                    }
                } else {
                    proof {
                        assert(changes_view(r@) =~= before);
                    }
                }
                proof {
                    assert(changes_view(r@) + lifecycle_from(fv, i + 1) =~= before + lifecycle_from(
                        fv,
                        i as int,
                    ));
                }
                i = i + 1;
            }
        }
    }
    proof {
        assert(changes_view(r@) + lifecycle_from(fv, i as int) =~= changes_view(r@));
    }
    r
}

/// The error for a failed `git` run: its standard error, trimmed, or a
/// generic message when that is empty.
pub open spec fn git_failure_spec(stderr: Seq<u8>) -> ErrorView {
    let message = trim(lossy_text(stderr));
    error_of(
        ErrorCode::GitError,
        if message.len() == 0 {
            "Git command failed"@
        } else {
            message
        },
    )
}

/// The error for a failed `git` run.
pub fn git_failure(stderr: &[u8]) -> (e: GlossError)
    ensures
        e@ == git_failure_spec(stderr@),
{
    let text = lossy(stderr);
    let message = trim_chars(&chars_of(text.as_str()));
    if message.len() == 0 {
        GlossError::new(ErrorCode::GitError, "Git command failed".to_owned())
    } else {
        GlossError::new(ErrorCode::GitError, string_of(&message))
    }
}

/// The error for a failed `git log` run over the glosses: its standard
/// error, trimmed.
pub fn history_failure(stderr: &[u8]) -> (e: GlossError)
    ensures
        e@ == error_of(ErrorCode::GitError, trim(lossy_text(stderr@))),
{
    let text = lossy(stderr);
    GlossError::new(ErrorCode::GitError, string_of(&trim_chars(&chars_of(text.as_str()))))
}

/// The hunks of a finished `git diff --unified=0` run: its output read as a
/// diff when it succeeded or exited with 1 (differences found), its failure
/// otherwise.
pub fn hunks_from_diff_output(success: bool, code: Option<i32>, stdout: &[u8], stderr: &[u8]) -> (r:
    Result<Vec<DiffHunk>, GlossError>)
    ensures
        match r {
            Ok(hunks) => (success || code == Some(1i32)) && hunks@ == parse_hunks_spec(
                lossy_text(stdout@),
            ),
            Err(e) => !(success || code == Some(1i32)) && e@ == git_failure_spec(stderr@),
        },
{
    if !success && code != Some(1i32) {
        return Err(git_failure(stderr));
    }
    let text = lossy(stdout);
    Ok(parse_hunks(text.as_str()))
}

/// The text of a command's output.
pub fn output_text(bytes: &[u8]) -> (s: String)
    ensures
        s@ == lossy_text(bytes@),
        vstd::utf8::valid_utf8(bytes@) ==> s@ == vstd::utf8::decode_utf8(bytes@),
{
    lossy(bytes)
}


/// Where a repository's work tree and Git directory are.
#[derive(Debug)]
pub struct GitRepo {
    pub root: String,
    pub git_dir: String,
}

/// The Git directory that `git rev-parse --git-dir` printed, made absolute
/// against the work tree root.
pub open spec fn git_dir_spec(root: Seq<char>, git_dir_output: Seq<char>) -> Seq<char> {
    let g = trim(git_dir_output);
    if is_absolute(g) {
        g
    } else {
        path_join(root, g)
    }
}

/// A path relative to the work tree root, for a path given relative to it
/// or absolute inside it.
pub open spec fn relative_spec(root: Seq<char>, path: Seq<char>) -> Result<Seq<char>, ErrorView> {
    let absolute = if is_absolute(path) {
        path
    } else {
        path_join(root, path)
    };
    match path_strip_prefix(absolute, root) {
        Some(r) => Ok(r),
        None => Err(
            with_file(error_of(ErrorCode::InvalidFormat, "path is outside the Git repository"@), path),
        ),
    }
}

/// `<reference>:<path>` with `/` separators, as `git show` takes it.
pub open spec fn object_spec(reference: Seq<char>, relative: Seq<char>) -> Seq<char> {
    reference + ":"@ + display_path(relative)
}

impl GitRepo {
    /// The repository that `git rev-parse --show-toplevel` and
    /// `git rev-parse --git-dir` describe.
    pub fn from_rev_parse(toplevel_output: &str, git_dir_output: &str) -> (r: GitRepo)
        ensures
            r.root@ == trim(toplevel_output@),
            r.git_dir@ == git_dir_spec(trim(toplevel_output@), git_dir_output@),
    {
        let root = trim_chars(&chars_of(toplevel_output));
        let g = trim_chars(&chars_of(git_dir_output));
        let git_dir = if g.len() > 0 && g[0] == '/' {
            g
        } else {
            join_of(&root, &g)
        };
        GitRepo { root: string_of(&root), git_dir: string_of(&git_dir) }
    }

    pub fn root(&self) -> (r: &str)
        ensures
            r@ == self.root@,
    {
        self.root.as_str()
    }

    pub fn git_dir(&self) -> (r: &str)
        ensures
            r@ == self.git_dir@,
    {
        self.git_dir.as_str()
    }

    /// `path` relative to the work tree root.
    pub fn relative(&self, path: &str) -> (r: Result<String, GlossError>)
        ensures
            crate::paths::path_result_view(r) == relative_spec(self.root@, path@),
    {
        let pc = chars_of(path);
        let root = chars_of(self.root.as_str());
        let absolute = if pc.len() > 0 && pc[0] == '/' {
            crate::text::copy_of(&pc)
        } else {
            join_of(&root, &pc)
        };
        match strip_prefix_path(&absolute, &root) {
            Some(r) => Ok(string_of(&r)),
            None => Err(
                GlossError::new(
                    ErrorCode::InvalidFormat,
                    "path is outside the Git repository".to_owned(),
                ).file(path),
            ),
        }
    }

    /// Where the derived state lives: `<git dir>/annotations/index.json`.
    pub fn index_path(&self) -> (r: String)
        ensures
            r@ == path_join(path_join(self.git_dir@, "annotations"@), "index.json"@),
    {
        let dir = join_of(&chars_of(self.git_dir.as_str()), &chars_of("annotations"));
        string_of(&join_of(&dir, &chars_of("index.json")))
    }
}

/// `<reference>:<path>` with `/` separators, as `git show` takes it.
pub fn object_name(reference: &str, relative: &str) -> (r: String)
    ensures
        r@ == object_spec(reference@, relative@),
{
    let mut out = chars_of(reference);
    out.push(':');
    let shown = display_path_of(relative);
    crate::text::push_str(&mut out, shown.as_str());
    proof {
        reveal_strlit(":");
        assert(out@ =~= object_spec(reference@, relative@));
    }
    string_of(&out)
}

/// The arguments of the `git diff` run whose hunks belong to `relative`
/// under `scope`: against `HEAD` for a file Git knows in a repository with
/// commits, against `/dev/null` for a new file, the index for staged
/// changes, and `<base>...HEAD` for a base.
pub open spec fn diff_args_spec(
    scope: ChangeScope,
    head_exists: bool,
    is_known: bool,
    root: Seq<char>,
    relative: Seq<char>,
) -> Seq<Seq<char>> {
    match scope {
        ChangeScope::WorkingTree => if head_exists && is_known {
            seq!["diff"@, "--unified=0"@, "HEAD"@, "--"@, relative]
        } else {
            seq!["diff"@, "--no-index"@, "--unified=0"@, "--"@, "/dev/null"@, path_join(root, relative)]
        },
        ChangeScope::Staged => seq!["diff"@, "--cached"@, "--unified=0"@, "--"@, relative],
        ChangeScope::Base(base) => seq!["diff"@, "--unified=0"@, base@ + "...HEAD"@, "--"@, relative],
    }
}

fn owned(s: &str) -> (r: String)
    ensures
        r@ == s@,
{
    s.to_owned()
}

/// The arguments of the `git diff` run for `relative` under `scope`.
pub fn diff_args(scope: &ChangeScope, head_exists: bool, is_known: bool, root: &str, relative: &str) -> (r:
    Vec<String>)
    ensures
        strings_view(r@) == diff_args_spec(*scope, head_exists, is_known, root@, relative@),
{
    let mut r: Vec<String> = Vec::new();
    match scope {
        ChangeScope::WorkingTree => {
            if head_exists && is_known {
                r.push(owned("diff"));
                r.push(owned("--unified=0"));
                r.push(owned("HEAD"));
                r.push(owned("--"));
                r.push(owned(relative));
            } else {
                r.push(owned("diff"));
                r.push(owned("--no-index"));
                r.push(owned("--unified=0"));
                r.push(owned("--"));
                r.push(owned("/dev/null"));
                r.push(string_of(&join_of(&chars_of(root), &chars_of(relative))));
            }
        },
        ChangeScope::Staged => {
            r.push(owned("diff"));
            r.push(owned("--cached"));
            r.push(owned("--unified=0"));
            r.push(owned("--"));
            r.push(owned(relative));
        },
        ChangeScope::Base(base) => {
            let mut comparison = chars_of(base.as_str());
            crate::text::push_str(&mut comparison, "...HEAD");
            r.push(owned("diff"));
            r.push(owned("--unified=0"));
            r.push(string_of(&comparison));
            r.push(owned("--"));
            r.push(owned(relative));
        },
    }
    proof {
        assert(strings_view(r@) =~= diff_args_spec(*scope, head_exists, is_known, root@, relative@));
    }
    r
}

/// The trimmed output of `git config --get`, when there is any.
pub fn config_value(output: &str) -> (r: Option<String>)
    ensures
        match r {
            Some(v) => trim(output@).len() > 0 && v@ == trim(output@),
            None => trim(output@).len() == 0,
        },
{
    let t = trim_chars(&chars_of(output));
    if t.len() == 0 {
        None
    } else {
        Some(string_of(&t))
    }
}

} // verus!
