//! Reading back what `GlossFile::render` writes: for a well-formed file the
//! text parses to the same file, with its version promoted as far as its
//! records need, its labels sorted and its explanations trimmed.

use vstd::prelude::*;
use crate::edit_id::{hex_digit, nibble, uuid_hex, uuid_text};
use crate::error::ErrorView;
use crate::text::dec;
use crate::edit_id::uuid_parse;
use crate::time::{chrono_instant, timestamp_parse, timestamp_text, Timestamp};
use crate::format::{
    alnum_group, ascii_alnum, line_range_parse, range_text, record_shaped, LineRange,
    parse_record_spec, record_parts_ok, record_text, risk_parse, risk_text, uses_v2_fields,
    RecordView, Risk, FileView, LineView, MIN_VERSION, CURRENT_VERSION, render_version,
    render_lines, render_spec, line_text, line_uses_v2, parse_body_spec, parse_spec,
    parse_after_updated, lemma_header_end_is, body_texts,
    LABELS_VERSION,
    insert_label, join_comma, join_lines, label_le, label_part, labels_text, lower_or_digit,
    parse_labels, sort_labels, valid_label,
};
use crate::text::{
    find_char_from, find_nonws_from, find_ws_from, is_ws, lines_from, no_ws, split, split_from,
    splitn_ws, splitn_ws_from, strip_cr, trim, trim_end_at, lemma_find_char, lemma_find_char_is,
    lemma_find_ws, lemma_find_ws_is, lemma_find_nonws, lemma_find_nonws_is, lemma_trim_end,
    lemma_trim_end_is,
};

verus! {

/// `s` contains no `c`.
pub open spec fn free_of(s: Seq<char>, c: char) -> bool {
    forall|j: int| 0 <= j < s.len() ==> s[j] != c
}

pub proof fn lemma_find_char_shift(p: Seq<char>, s: Seq<char>, c: char, i: int)
    requires
        0 <= i <= s.len(),
    ensures
        find_char_from(p + s, c, p.len() + i) == p.len() + find_char_from(s, c, i),
{
    lemma_find_char(s, c, i);
    let k = find_char_from(s, c, i);
    let t = p + s;
    assert forall|j: int| p.len() + i <= j < p.len() + k implies t[j] != c by {
        assert(t[j] == s[j - p.len()]);
    }
    if k < s.len() {
        assert(t[p.len() + k] == s[k]);
    }
    lemma_find_char_is(t, c, p.len() + i, p.len() + k);
}

pub proof fn lemma_find_ws_shift(p: Seq<char>, s: Seq<char>, i: int)
    requires
        0 <= i <= s.len(),
    ensures
        find_ws_from(p + s, p.len() + i) == p.len() + find_ws_from(s, i),
{
    lemma_find_ws(s, i);
    let k = find_ws_from(s, i);
    let t = p + s;
    assert forall|j: int| p.len() + i <= j < p.len() + k implies !is_ws(t[j]) by {
        assert(t[j] == s[j - p.len()]);
    }
    if k < s.len() {
        assert(t[p.len() + k] == s[k]);
    }
    lemma_find_ws_is(t, p.len() + i, p.len() + k);
}

/// Splitting the tail of `p + s` is splitting the tail of `s`.
pub proof fn lemma_split_shift(p: Seq<char>, s: Seq<char>, c: char, i: int)
    requires
        0 <= i <= s.len(),
    ensures
        split_from(p + s, c, p.len() + i) == split_from(s, c, i),
    decreases s.len() - i,
{
    let t = p + s;
    lemma_find_char_shift(p, s, c, i);
    lemma_find_char(s, c, i);
    let k = find_char_from(s, c, i);
    if k >= s.len() {
        assert(t.subrange(p.len() + i, t.len() as int) =~= s.subrange(i, s.len() as int));
    } else {
        assert(t.subrange(p.len() + i, p.len() + k) =~= s.subrange(i, k));
        lemma_split_shift(p, s, c, k + 1);
    }
}

/// With no `c` in it, `s` is its own single part.
pub proof fn lemma_split_single(s: Seq<char>, c: char)
    requires
        free_of(s, c),
    ensures
        split(s, c) == seq![s],
{
    lemma_find_char_is(s, c, 0, s.len() as int);
    assert(s.subrange(0, s.len() as int) =~= s);
}

/// Splitting `a`, then `c`, then `b` at `c` gives the parts of `a` and then
/// those of `b`.
pub proof fn lemma_split_concat(a: Seq<char>, b: Seq<char>, c: char)
    ensures
        split(a + seq![c] + b, c) == split(a, c) + split(b, c),
{
    lemma_split_concat_from(a, b, c, 0);
}

proof fn lemma_split_concat_from(a: Seq<char>, b: Seq<char>, c: char, i: int)
    requires
        0 <= i <= a.len(),
    ensures
        split_from(a + seq![c] + b, c, i) == split_from(a, c, i) + split(b, c),
    decreases a.len() - i,
{
    let s = a + seq![c] + b;
    lemma_find_char(a, c, i);
    let k = find_char_from(a, c, i);
    if k < a.len() {
        assert forall|j: int| i <= j < k implies s[j] != c by {
            assert(s[j] == a[j]);
        }
        assert(s[k] == a[k]);
        lemma_find_char_is(s, c, i, k);
        assert(s.subrange(i, k) =~= a.subrange(i, k));
        lemma_split_concat_from(a, b, c, k + 1);
        assert(split_from(s, c, i) =~= seq![a.subrange(i, k)] + split_from(s, c, k + 1));
        assert(split_from(a, c, i) =~= seq![a.subrange(i, k)] + split_from(a, c, k + 1));
    } else {
        assert forall|j: int| i <= j < a.len() implies s[j] != c by {
            assert(s[j] == a[j]);
        }
        assert(s[a.len() as int] == c);
        lemma_find_char_is(s, c, i, a.len() as int);
        assert(s.subrange(i, a.len() as int) =~= a.subrange(i, a.len() as int));
        assert(s =~= (a + seq![c]) + b);
        lemma_split_shift(a + seq![c], b, c, 0);
        assert(split_from(a, c, i) =~= seq![a.subrange(i, a.len() as int)]);
    }
}

/// `splitn` at whitespace, from position `i`, past a token followed by a space.
pub proof fn lemma_splitn_step(s: Seq<char>, i: int, t: Seq<char>, n: nat)
    requires
        0 <= i,
        i + t.len() < s.len(),
        s.subrange(i, i + t.len()) == t,
        no_ws(t),
        s[i + t.len()] == ' ',
        n >= 2,
    ensures
        splitn_ws_from(s, i, n) == seq![t] + splitn_ws_from(s, i + t.len() + 1, (n - 1) as nat),
{
    assert forall|j: int| i <= j < i + t.len() implies !is_ws(s[j]) by {
        assert(s[j] == t[j - i]);
    }
    assert(is_ws(s[i + t.len()]));
    lemma_find_ws_is(s, i, i + t.len());
}

/// `splitn` with a count of one keeps the rest whole.
pub proof fn lemma_splitn_last(s: Seq<char>, i: int)
    requires
        0 <= i <= s.len(),
    ensures
        splitn_ws_from(s, i, 1) == seq![s.subrange(i, s.len() as int)],
{
}

/// `trim` is idempotent, and what it leaves starts and ends with
/// non-whitespace.
pub proof fn lemma_trim(s: Seq<char>)
    ensures
        trim(trim(s)) == trim(s),
        trim(s).len() > 0 ==> !is_ws(trim(s)[0]) && !is_ws(trim(s).last()),
        forall|c: char| free_of(s, c) ==> free_of(trim(s), c),
{
    lemma_find_nonws(s, 0);
    let lo = find_nonws_from(s, 0);
    if lo < s.len() {
        lemma_trim_end(s, s.len() as int);
        let hi = trim_end_at(s, s.len() as int);
        assert(hi > lo) by {
            if hi <= lo {
                assert(is_ws(s[lo]));
            }
        }
        let t = s.subrange(lo, hi);
        assert(t[0] == s[lo]);
        assert(t.last() == s[hi - 1]);
        lemma_find_nonws_is(t, 0, 0);
        lemma_trim_end_is(t, t.len() as int, t.len() as int);
        assert(t.subrange(0, t.len() as int) =~= t);
        assert forall|c: char| free_of(s, c) implies free_of(t, c) by {
            assert forall|j: int| 0 <= j < t.len() implies t[j] != c by {
                assert(t[j] == s[lo + j]);
            }
        }
    } else {
        let e = Seq::<char>::empty();
        lemma_find_nonws_is(e, 0, 0);
    }
}


/// A line that `str::lines` gives back as it is once a newline follows it:
/// no newline inside, no carriage return at its end.
pub open spec fn line_ok(s: Seq<char>) -> bool {
    free_of(s, '\n') && !(s.len() > 0 && s.last() == '\r')
}

pub proof fn lemma_lines_shift(p: Seq<char>, s: Seq<char>, i: int)
    requires
        0 <= i <= s.len(),
    ensures
        lines_from(p + s, p.len() + i) == lines_from(s, i),
    decreases s.len() - i,
{
    let t = p + s;
    if i < s.len() {
        lemma_find_char_shift(p, s, '\n', i);
        lemma_find_char(s, '\n', i);
        let k = find_char_from(s, '\n', i);
        if k >= s.len() {
            assert(t.subrange(p.len() + i, t.len() as int) =~= s.subrange(i, s.len() as int));
        } else {
            assert(t.subrange(p.len() + i, p.len() + k) =~= s.subrange(i, k));
            lemma_lines_shift(p, s, k + 1);
        }
    }
}

pub proof fn lemma_join_lines_append(a: Seq<Seq<char>>, b: Seq<Seq<char>>)
    ensures
        join_lines(a + b) == join_lines(a) + join_lines(b),
    decreases b.len(),
{
    if b.len() == 0 {
        assert(a + b =~= a);
        assert(join_lines(a) + join_lines(b) =~= join_lines(a));
    } else {
        lemma_join_lines_append(a, b.drop_last());
        assert((a + b).drop_last() =~= a + b.drop_last());
        assert((a + b).last() == b.last());
        assert(join_lines(a + b) =~= join_lines(a) + join_lines(b));
    }
}

/// Lines that are each `line_ok`, each followed by a newline, read back as
/// themselves.
pub proof fn lemma_lines_join(ls: Seq<Seq<char>>)
    requires
        forall|i: int| 0 <= i < ls.len() ==> line_ok(#[trigger] ls[i]),
    ensures
        crate::text::lines(join_lines(ls)) == ls,
    decreases ls.len(),
{
    if ls.len() == 0 {
        assert(join_lines(ls) =~= Seq::<char>::empty());
    } else {
        let x = ls[0];
        let rest = ls.drop_first();
        assert(ls =~= seq![x] + rest);
        lemma_join_lines_append(seq![x], rest);
        assert(seq![x].drop_last() =~= Seq::<Seq<char>>::empty());
        assert(join_lines(seq![x].drop_last()) =~= Seq::<char>::empty());
        assert(join_lines(seq![x]) =~= x + seq!['\n']);
        let s = join_lines(ls);
        assert(s =~= (x + seq!['\n']) + join_lines(rest));
        assert(line_ok(x));
        assert forall|j: int| 0 <= j < x.len() implies s[j] != '\n' by {
            assert(s[j] == x[j]);
        }
        assert(s[x.len() as int] == '\n');
        lemma_find_char_is(s, '\n', 0, x.len() as int);
        assert(s.subrange(0, x.len() as int) =~= x);
        assert(strip_cr(x) == x);
        assert forall|i: int| 0 <= i < rest.len() implies line_ok(#[trigger] rest[i]) by {
            assert(rest[i] == ls[i + 1]);
        }
        lemma_lines_join(rest);
        lemma_lines_shift(x + seq!['\n'], join_lines(rest), 0);
        assert(s.len() > 0);
        assert(crate::text::lines(s) =~= seq![x] + rest);
    }
}

/// Labels are ordered as strings are: reflexively,
pub proof fn lemma_label_le_refl(a: Seq<char>)
    ensures
        label_le(a, a),
    decreases a.len(),
{
    if a.len() > 0 {
        lemma_label_le_refl(a.drop_first());
    }
}

/// antisymmetrically,
pub proof fn lemma_label_le_antisym(a: Seq<char>, b: Seq<char>)
    requires
        label_le(a, b),
        label_le(b, a),
    ensures
        a == b,
    decreases a.len(),
{
    if a.len() == 0 {
        assert(b.len() == 0);
        assert(a =~= b);
    } else {
        assert(b.len() > 0);
        assert(a[0] == b[0]);
        lemma_label_le_antisym(a.drop_first(), b.drop_first());
        assert(a =~= seq![a[0]] + a.drop_first());
        assert(b =~= seq![b[0]] + b.drop_first());
    }
}

/// transitively,
pub proof fn lemma_label_le_trans(a: Seq<char>, b: Seq<char>, c: Seq<char>)
    requires
        label_le(a, b),
        label_le(b, c),
    ensures
        label_le(a, c),
    decreases a.len(),
{
    if a.len() > 0 && b.len() > 0 && c.len() > 0 && a[0] == b[0] && b[0] == c[0] {
        lemma_label_le_trans(a.drop_first(), b.drop_first(), c.drop_first());
    }
}

/// and totally.
pub proof fn lemma_label_le_total(a: Seq<char>, b: Seq<char>)
    ensures
        label_le(a, b) || label_le(b, a),
    decreases a.len(),
{
    if a.len() > 0 && b.len() > 0 && a[0] == b[0] {
        lemma_label_le_total(a.drop_first(), b.drop_first());
    }
}

/// The labels are in ascending string order.
pub open spec fn labels_sorted(s: Seq<Seq<char>>) -> bool {
    forall|i: int, j: int| 0 <= i < j < s.len() ==> label_le(#[trigger] s[i], #[trigger] s[j])
}

pub proof fn lemma_insert_label_contains(x: Seq<char>, s: Seq<Seq<char>>)
    ensures
        insert_label(x, s).len() == s.len() + 1,
        forall|y: Seq<char>| #[trigger] insert_label(x, s).contains(y) <==> (y == x || s.contains(y)),
        s.no_duplicates() && !s.contains(x) ==> insert_label(x, s).no_duplicates(),
    decreases s.len(),
{
    let r = insert_label(x, s);
    if s.len() == 0 {
        assert(r =~= seq![x]);
        assert forall|y: Seq<char>| #[trigger] r.contains(y) <==> (y == x || s.contains(y)) by {
            if y == x {
                assert(r[0] == y);
            }
        }
    } else if label_le(x, s[0]) {
        assert(r =~= seq![x] + s);
        assert forall|y: Seq<char>| #[trigger] r.contains(y) <==> (y == x || s.contains(y)) by {
            if y == x {
                assert(r[0] == y);
            }
            if s.contains(y) {
                let j = choose|j: int| 0 <= j < s.len() && s[j] == y;
                assert(r[j + 1] == y);
            }
            if r.contains(y) && y != x {
                let j = choose|j: int| 0 <= j < r.len() && r[j] == y;
                assert(s[j - 1] == y);
            }
        }
    } else {
        let t = s.drop_first();
        lemma_insert_label_contains(x, t);
        let it = insert_label(x, t);
        assert(r =~= seq![s[0]] + it);
        assert forall|y: Seq<char>| #[trigger] r.contains(y) <==> (y == x || s.contains(y)) by {
            if r.contains(y) {
                let j = choose|j: int| 0 <= j < r.len() && r[j] == y;
                if j == 0 {
                    assert(s[0] == y);
                } else {
                    assert(it[j - 1] == y);
                    assert(it.contains(y));
                    if t.contains(y) {
                        let k = choose|k: int| 0 <= k < t.len() && t[k] == y;
                        assert(s[k + 1] == y);
                    }
                }
            }
            if y == x {
                assert(it.contains(y));
                let j = choose|j: int| 0 <= j < it.len() && it[j] == y;
                assert(r[j + 1] == y);
            }
            if s.contains(y) {
                let j = choose|j: int| 0 <= j < s.len() && s[j] == y;
                if j == 0 {
                    assert(r[0] == y);
                } else {
                    assert(t[j - 1] == y);
                    assert(t.contains(y));
                    assert(it.contains(y));
                    let k = choose|k: int| 0 <= k < it.len() && it[k] == y;
                    assert(r[k + 1] == y);
                }
            }
        }
        if s.no_duplicates() && !s.contains(x) {
            assert(t.no_duplicates()) by {
                assert forall|a: int, b: int| 0 <= a < t.len() && 0 <= b < t.len() && a != b implies t[a]
                    != t[b] by {
                    assert(t[a] == s[a + 1] && t[b] == s[b + 1]);
                }
            }
            assert(!t.contains(x)) by {
                if t.contains(x) {
                    let k = choose|k: int| 0 <= k < t.len() && t[k] == x;
                    assert(s[k + 1] == x);
                }
            }
            assert(!it.contains(s[0])) by {
                assert(s[0] != x) by {
                    assert(s[0] == s[0]);
                    if s[0] == x {
                        assert(s.contains(x));
                    }
                }
                if t.contains(s[0]) {
                    let k = choose|k: int| 0 <= k < t.len() && t[k] == s[0];
                    assert(s[k + 1] == s[0]);
                }
            }
            assert forall|a: int, b: int| 0 <= a < r.len() && 0 <= b < r.len() && a != b implies r[a]
                != r[b] by {
                if a == 0 && b > 0 {
                    assert(r[b] == it[b - 1]);
                    assert(it.contains(r[b]));
                } else if b == 0 && a > 0 {
                    assert(r[a] == it[a - 1]);
                    assert(it.contains(r[a]));
                } else if a > 0 && b > 0 {
                    assert(r[a] == it[a - 1] && r[b] == it[b - 1]);
                }
            }
        }
    }
}

pub proof fn lemma_insert_label_sorted(x: Seq<char>, s: Seq<Seq<char>>)
    requires
        labels_sorted(s),
    ensures
        labels_sorted(insert_label(x, s)),
    decreases s.len(),
{
    let r = insert_label(x, s);
    if s.len() == 0 {
        assert(r =~= seq![x]);
    } else if label_le(x, s[0]) {
        assert(r =~= seq![x] + s);
        assert forall|i: int, j: int| 0 <= i < j < r.len() implies label_le(#[trigger] r[i], #[trigger] r[j]) by {
            if i == 0 {
                if j > 1 {
                    lemma_label_le_trans(x, s[0], s[j - 1]);
                }
            } else {
                assert(r[i] == s[i - 1] && r[j] == s[j - 1]);
            }
        }
    } else {
        let t = s.drop_first();
        assert(labels_sorted(t)) by {
            assert forall|i: int, j: int| 0 <= i < j < t.len() implies label_le(#[trigger] t[i], #[trigger] t[j]) by {
                assert(t[i] == s[i + 1] && t[j] == s[j + 1]);
            }
        }
        lemma_insert_label_sorted(x, t);
        lemma_insert_label_contains(x, t);
        lemma_label_le_total(x, s[0]);
        let it = insert_label(x, t);
        assert(r =~= seq![s[0]] + it);
        assert forall|i: int, j: int| 0 <= i < j < r.len() implies label_le(#[trigger] r[i], #[trigger] r[j]) by {
            if i == 0 {
                assert(r[j] == it[j - 1]);
                assert(it.contains(it[j - 1]));
                if it[j - 1] != x {
                    assert(t.contains(it[j - 1]));
                    let k = choose|k: int| 0 <= k < t.len() && t[k] == it[j - 1];
                    assert(s[k + 1] == it[j - 1]);
                }
            } else {
                assert(r[i] == it[i - 1] && r[j] == it[j - 1]);
            }
        }
    }
}

/// Sorting keeps the labels, their count and their distinctness, and sorts.
pub proof fn lemma_sort_labels(s: Seq<Seq<char>>)
    ensures
        sort_labels(s).len() == s.len(),
        forall|y: Seq<char>| #[trigger] sort_labels(s).contains(y) <==> s.contains(y),
        s.no_duplicates() ==> sort_labels(s).no_duplicates(),
        labels_sorted(sort_labels(s)),
    decreases s.len(),
{
    if s.len() == 0 {
        assert(sort_labels(s) =~= Seq::<Seq<char>>::empty());
    } else {
        let d = s.drop_last();
        lemma_sort_labels(d);
        lemma_insert_label_contains(s.last(), sort_labels(d));
        lemma_insert_label_sorted(s.last(), sort_labels(d));
        assert(s =~= d.push(s.last()));
        assert forall|y: Seq<char>| #[trigger] sort_labels(s).contains(y) <==> s.contains(y) by {
            if s.contains(y) && y != s.last() {
                let j = choose|j: int| 0 <= j < s.len() && s[j] == y;
                assert(d[j] == y);
                assert(d.contains(y));
            }
            if d.contains(y) {
                let j = choose|j: int| 0 <= j < d.len() && d[j] == y;
                assert(s[j] == y);
            }
            if y == s.last() {
                assert(s[s.len() - 1] == y);
            }
        }
        if s.no_duplicates() {
            assert(d.no_duplicates()) by {
                assert forall|a: int, b: int| 0 <= a < d.len() && 0 <= b < d.len() && a != b implies d[a]
                    != d[b] by {
                    assert(d[a] == s[a] && d[b] == s[b]);
                }
            }
            assert(!d.contains(s.last())) by {
                if d.contains(s.last()) {
                    let j = choose|j: int| 0 <= j < d.len() && d[j] == s.last();
                    assert(s[j] == s[s.len() - 1]);
                }
            }
        }
    }
}

proof fn lemma_insert_label_last(x: Seq<char>, d: Seq<Seq<char>>)
    requires
        forall|j: int| 0 <= j < d.len() ==> label_le(#[trigger] d[j], x) && d[j] != x,
    ensures
        insert_label(x, d) == d.push(x),
    decreases d.len(),
{
    if d.len() == 0 {
        assert(insert_label(x, d) =~= d.push(x));
    } else {
        assert(label_le(d[0], x) && d[0] != x);
        if label_le(x, d[0]) {
            lemma_label_le_antisym(x, d[0]);
        }
        let t = d.drop_first();
        assert forall|j: int| 0 <= j < t.len() implies label_le(#[trigger] t[j], x) && t[j] != x by {
            assert(t[j] == d[j + 1]);
        }
        lemma_insert_label_last(x, t);
        assert(insert_label(x, d) =~= d.push(x));
    }
}

/// Sorting sorted labels without repeats changes nothing.
pub proof fn lemma_sort_labels_sorted(s: Seq<Seq<char>>)
    requires
        labels_sorted(s),
        s.no_duplicates(),
    ensures
        sort_labels(s) == s,
    decreases s.len(),
{
    if s.len() > 0 {
        let d = s.drop_last();
        assert(labels_sorted(d)) by {
            assert forall|i: int, j: int| 0 <= i < j < d.len() implies label_le(#[trigger] d[i], #[trigger] d[j]) by {
                assert(d[i] == s[i] && d[j] == s[j]);
            }
        }
        assert(d.no_duplicates()) by {
            assert forall|a: int, b: int| 0 <= a < d.len() && 0 <= b < d.len() && a != b implies d[a]
                != d[b] by {
                assert(d[a] == s[a] && d[b] == s[b]);
            }
        }
        lemma_sort_labels_sorted(d);
        assert forall|j: int| 0 <= j < d.len() implies label_le(#[trigger] d[j], s.last()) && d[j]
            != s.last() by {
            assert(d[j] == s[j]);
            assert(s.last() == s[s.len() - 1]);
        }
        lemma_insert_label_last(s.last(), d);
        assert(s =~= d.push(s.last()));
    }
}

proof fn lemma_split_label_chars(s: Seq<char>, i: int)
    requires
        0 <= i <= s.len(),
        forall|j: int| 0 <= j < split_from(s, '-', i).len() ==> label_part(
            #[trigger] split_from(s, '-', i)[j],
        ),
    ensures
        i < s.len(),
        lower_or_digit(s[i]),
        forall|j: int| i <= j < s.len() ==> lower_or_digit(#[trigger] s[j]) || s[j] == '-',
    decreases s.len() - i,
{
    lemma_find_char(s, '-', i);
    let k = find_char_from(s, '-', i);
    let parts = split_from(s, '-', i);
    assert(label_part(parts[0]));
    if k >= s.len() {
        assert(parts[0] == s.subrange(i, s.len() as int));
        assert forall|j: int| i <= j < s.len() implies lower_or_digit(#[trigger] s[j]) || s[j] == '-' by {
            assert(s[j] == parts[0][j - i]);
        }
        assert(s[i] == parts[0][0]);
    } else {
        assert(parts[0] == s.subrange(i, k));
        let rest = split_from(s, '-', k + 1);
        assert(parts == seq![s.subrange(i, k)] + rest);
        assert forall|j: int| 0 <= j < rest.len() implies label_part(#[trigger] rest[j]) by {
            assert(rest[j] == parts[j + 1]);
        }
        lemma_split_label_chars(s, k + 1);
        assert forall|j: int| i <= j < s.len() implies lower_or_digit(#[trigger] s[j]) || s[j] == '-' by {
            if j < k {
                assert(s[j] == parts[0][j - i]);
            }
        }
        assert(s[i] == parts[0][0]);
    }
}

/// A valid label is made of lower-case letters, digits and hyphens, and
/// starts with a letter or digit.
pub proof fn lemma_valid_label_chars(s: Seq<char>)
    requires
        valid_label(s),
    ensures
        lower_or_digit(s[0]),
        forall|j: int| 0 <= j < s.len() ==> lower_or_digit(#[trigger] s[j]) || s[j] == '-',
        crate::text::is_token(s),
        free_of(s, ','),
        free_of(s, '\n'),
{
    assert forall|j: int| 0 <= j < split_from(s, '-', 0).len() implies label_part(
        #[trigger] split_from(s, '-', 0)[j],
    ) by {
        assert(label_part(split(s, '-')[j]));
    }
    lemma_split_label_chars(s, 0);
    assert forall|j: int| 0 <= j < s.len() implies !is_ws(#[trigger] s[j]) by {
        assert(lower_or_digit(s[j]) || s[j] == '-');
    }
}

/// The comma-joined labels split back into the labels.
pub proof fn lemma_join_comma(xs: Seq<Seq<char>>)
    requires
        xs.len() >= 1,
        forall|i: int| 0 <= i < xs.len() ==> crate::text::is_token(#[trigger] xs[i]) && free_of(
            xs[i],
            ',',
        ),
    ensures
        split(join_comma(xs), ',') == xs,
        crate::text::is_token(join_comma(xs)),
        join_comma(xs)[0] == xs[0][0],
        forall|c: char| c != ',' && (forall|i: int| 0 <= i < xs.len() ==> free_of(#[trigger] xs[i], c))
            ==> free_of(join_comma(xs), c),
    decreases xs.len(),
{
    if xs.len() == 1 {
        lemma_split_single(xs[0], ',');
        assert(seq![xs[0]] =~= xs);
    } else {
        let d = xs.drop_last();
        assert forall|i: int| 0 <= i < d.len() implies crate::text::is_token(#[trigger] d[i]) && free_of(
            d[i],
            ',',
        ) by {
            assert(d[i] == xs[i]);
        }
        lemma_join_comma(d);
        let l = xs.last();
        assert(crate::text::is_token(xs[xs.len() - 1]));
        lemma_split_concat(join_comma(d), l, ',');
        lemma_split_single(l, ',');
        assert(xs =~= d + seq![l]);
        let j = join_comma(xs);
        assert(j == join_comma(d) + seq![','] + l);
        assert(j[0] == join_comma(d)[0]);
        assert(d[0] == xs[0]);
        assert forall|k: int| 0 <= k < j.len() implies !is_ws(#[trigger] j[k]) by {
            if k < join_comma(d).len() {
                assert(j[k] == join_comma(d)[k]);
            } else if k > join_comma(d).len() {
                assert(j[k] == l[k - join_comma(d).len() - 1]);
            }
        }
        assert forall|c: char| c != ',' && (forall|i: int| 0 <= i < xs.len() ==> free_of(
            #[trigger] xs[i],
            c,
        )) implies free_of(j, c) by {
            assert forall|i: int| 0 <= i < d.len() implies free_of(#[trigger] d[i], c) by {
                assert(d[i] == xs[i]);
            }
            assert(free_of(xs[xs.len() - 1], c));
            assert(free_of(join_comma(d), c));
            assert forall|k: int| 0 <= k < j.len() implies j[k] != c by {
                if k == join_comma(d).len() {
                    assert(j[k] == ',');
                } else if k < join_comma(d).len() {
                    assert(j[k] == join_comma(d)[k]);
                } else if k > join_comma(d).len() {
                    assert(j[k] == l[k - join_comma(d).len() - 1]);
                }
            }
        }
    }
}

/// Labels a record may carry: valid labels, none repeated.
pub open spec fn labels_ok(ls: Seq<Seq<char>>) -> bool {
    &&& forall|i: int| 0 <= i < ls.len() ==> valid_label(#[trigger] ls[i])
    &&& ls.no_duplicates()
}

/// The labels field reads back as the sorted labels.
pub proof fn lemma_labels_text(ls: Seq<Seq<char>>)
    requires
        labels_ok(ls),
    ensures
        parse_labels(labels_text(ls)) == Some(sort_labels(ls)),
        crate::text::is_token(labels_text(ls)),
        free_of(labels_text(ls), '\n'),
        labels_text(sort_labels(ls)) == labels_text(ls),
        labels_ok(sort_labels(ls)),
{
    reveal_strlit("-");
    lemma_sort_labels(ls);
    let sl = sort_labels(ls);
    assert forall|i: int| 0 <= i < sl.len() implies valid_label(#[trigger] sl[i]) by {
        assert(sl.contains(sl[i]));
        assert(ls.contains(sl[i]));
        let j = choose|j: int| 0 <= j < ls.len() && ls[j] == sl[i];
        assert(valid_label(ls[j]));
    }
    lemma_sort_labels_sorted(sl);
    if ls.len() == 0 {
        assert(sl =~= Seq::<Seq<char>>::empty());
        assert(labels_text(ls) =~= "-"@);
        assert(crate::text::is_token("-"@));
    } else {
        assert forall|i: int| 0 <= i < sl.len() implies crate::text::is_token(#[trigger] sl[i])
            && free_of(sl[i], ',') && free_of(sl[i], '\n') by {
            lemma_valid_label_chars(sl[i]);
        }
        lemma_join_comma(sl);
        let t = join_comma(sl);
        lemma_valid_label_chars(sl[0]);
        assert(t[0] != '-');
        assert(t != "-"@) by {
            if t == "-"@ {
                assert(t[0] == '-');
            }
        }
        assert(split(t, ',') == sl);
        assert(parse_labels(t) == Some(sl));
    }
}

proof fn lemma_hex_digit(d: nat)
    requires
        d < 16,
    ensures
        ascii_alnum(hex_digit(d)),
        hex_digit(d) != '-',
        !is_ws(hex_digit(d)),
{
    if d < 10 {
        crate::text::lemma_digit_char(d);
    } else {
        assert(('a' as u32) == 97);
        assert(((d - 10 + ('a' as u32)) as u32) as char as u32 == d + 87);
    }
}

proof fn lemma_hex_group(h: Seq<char>, a: int, b: int)
    requires
        0 <= a < b <= h.len(),
        forall|k: int| 0 <= k < h.len() ==> ascii_alnum(#[trigger] h[k]) && h[k] != '-',
    ensures
        free_of(h.subrange(a, b), '-'),
        alnum_group(h.subrange(a, b)),
{
    let g = h.subrange(a, b);
    assert forall|j: int| 0 <= j < g.len() implies g[j] != '-' && ascii_alnum(#[trigger] g[j]) by {
        assert(g[j] == h[a + j]);
    }
}

/// The hyphenated text of an edit ID is one token that `record_shaped`
/// recognises.
pub proof fn lemma_uuid_text(u: u128)
    ensures
        record_shaped(uuid_text(u)),
        crate::text::is_token(uuid_text(u)),
        uuid_text(u).len() == 36,
        free_of(uuid_text(u), '\n'),
{
    let h = uuid_hex(u);
    assert forall|k: int| 0 <= k < 32 implies ascii_alnum(#[trigger] h[k]) && h[k] != '-' && !is_ws(
        h[k],
    ) by {
        lemma_hex_digit(nibble(u, k));
    }
    let g0 = h.subrange(0, 8);
    let g1 = h.subrange(8, 12);
    let g2 = h.subrange(12, 16);
    let g3 = h.subrange(16, 20);
    let g4 = h.subrange(20, 32);
    lemma_hex_group(h, 0, 8);
    lemma_hex_group(h, 8, 12);
    lemma_hex_group(h, 12, 16);
    lemma_hex_group(h, 16, 20);
    lemma_hex_group(h, 20, 32);
    let a1 = g0 + seq!['-'] + g1;
    let a2 = a1 + seq!['-'] + g2;
    let a3 = a2 + seq!['-'] + g3;
    let t = a3 + seq!['-'] + g4;
    assert(t == uuid_text(u));
    lemma_split_single(g0, '-');
    lemma_split_single(g1, '-');
    lemma_split_single(g2, '-');
    lemma_split_single(g3, '-');
    lemma_split_single(g4, '-');
    lemma_split_concat(g0, g1, '-');
    lemma_split_concat(a1, g2, '-');
    lemma_split_concat(a2, g3, '-');
    lemma_split_concat(a3, g4, '-');
    let g = split(t, '-');
    assert(g =~= seq![g0, g1, g2, g3, g4]);
    assert(alnum_group(g0) && alnum_group(g1) && alnum_group(g2) && alnum_group(g3) && alnum_group(
        g4,
    ));
    assert forall|j: int| 0 <= j < 5 implies alnum_group(#[trigger] g[j]) by {}
    assert forall|j: int| 0 <= j < t.len() implies !is_ws(#[trigger] t[j]) && t[j] != '\n' by {
        if j < 8 {
            assert(t[j] == h[j]);
        } else if j == 8 || j == 13 || j == 18 || j == 23 {
            assert(t[j] == '-');
        } else if j < 13 {
            assert(t[j] == h[j - 1]);
        } else if j < 18 {
            assert(t[j] == h[j - 2]);
        } else if j < 23 {
            assert(t[j] == h[j - 3]);
        } else {
            assert(t[j] == h[j - 4]);
        }
    }
}

/// `start:end` reads back as the range, and is one token.
pub proof fn lemma_range_text(r: LineRange)
    requires
        r.valid(),
    ensures
        line_range_parse(range_text(r)) == Ok::<LineRange, ErrorView>(r),
        crate::text::is_token(range_text(r)),
        free_of(range_text(r), '\n'),
{
    let a = dec(r.start as nat);
    let b = dec(r.end as nat);
    crate::text::lemma_dec_digits(r.start as nat);
    crate::text::lemma_dec_digits(r.end as nat);
    let t = range_text(r);
    reveal_strlit(":");
    assert(t =~= a + seq![':'] + b);
    assert forall|j: int| 0 <= j < a.len() implies t[j] != ':' by {
        assert(t[j] == a[j]);
        assert(crate::text::is_digit(a[j]));
    }
    assert(t[a.len() as int] == ':');
    lemma_find_char_is(t, ':', 0, a.len() as int);
    assert(t.subrange(0, a.len() as int) =~= a);
    assert(t.subrange(a.len() as int + 1, t.len() as int) =~= b);
    crate::text::lemma_parse_dec(r.start as nat, u32::MAX as nat);
    crate::text::lemma_parse_dec(r.end as nat, u32::MAX as nat);
    assert forall|j: int| 0 <= j < t.len() implies !is_ws(#[trigger] t[j]) && t[j] != '\n' by {
        if j < a.len() {
            assert(t[j] == a[j]);
            assert(crate::text::is_digit(a[j]));
        } else if j > a.len() {
            assert(t[j] == b[j - a.len() - 1]);
            assert(crate::text::is_digit(b[j - a.len() - 1]));
        }
    }
}

pub proof fn lemma_splitn_shift(p: Seq<char>, s: Seq<char>, i: int, n: nat)
    requires
        0 <= i <= s.len(),
    ensures
        splitn_ws_from(p + s, p.len() + i, n) == splitn_ws_from(s, i, n),
    decreases n,
{
    let t = p + s;
    if n == 1 {
        assert(t.subrange(p.len() + i, t.len() as int) =~= s.subrange(i, s.len() as int));
    } else if n > 1 {
        lemma_find_ws_shift(p, s, i);
        lemma_find_ws(s, i);
        let k = find_ws_from(s, i);
        if k >= s.len() {
            assert(t.subrange(p.len() + i, t.len() as int) =~= s.subrange(i, s.len() as int));
        } else {
            assert(t.subrange(p.len() + i, p.len() + k) =~= s.subrange(i, k));
            lemma_splitn_shift(p, s, k + 1, (n - 1) as nat);
        }
    }
}

/// `splitn` at whitespace takes a leading token followed by a space as its
/// first part.
pub proof fn lemma_splitn_cons(a: Seq<char>, rest: Seq<char>, n: nat)
    requires
        no_ws(a),
        n >= 2,
    ensures
        splitn_ws(a + (seq![' '] + rest), n) == seq![a] + splitn_ws(rest, (n - 1) as nat),
{
    let s = a + seq![' '] + rest;
    assert(a + (seq![' '] + rest) =~= s);
    assert(s.subrange(0, a.len() as int) =~= a);
    lemma_splitn_step(s, 0, a, n);
    lemma_splitn_shift(a + seq![' '], rest, 0, (n - 1) as nat);
}

pub proof fn lemma_free_concat(a: Seq<char>, b: Seq<char>, c: char)
    requires
        free_of(a, c),
        free_of(b, c),
    ensures
        free_of(a + b, c),
{
    assert forall|j: int| 0 <= j < (a + b).len() implies (a + b)[j] != c by {
        if j < a.len() {
            assert((a + b)[j] == a[j]);
        } else {
            assert((a + b)[j] == b[j - a.len()]);
        }
    }
}

pub proof fn lemma_token_free(a: Seq<char>)
    requires
        no_ws(a),
    ensures
        free_of(a, '\n'),
        free_of(a, ' '),
{
    assert forall|j: int| 0 <= j < a.len() implies a[j] != '\n' && a[j] != ' ' by {
        assert(!is_ws(a[j]));
    }
}

/// The hyphenated text of `u` reads back as `u` (what `Uuid::parse_str`
/// does with what `Uuid` prints).
pub open spec fn id_round_trips(u: u128) -> bool {
    uuid_parse(uuid_text(u)) == Some(u)
}

/// The text of `t` is one token and reads back as `t` (what chrono's parser
/// does with what chrono prints).
pub open spec fn instant_round_trips(t: Timestamp) -> bool {
    crate::text::is_token(timestamp_text(t)) && timestamp_parse(timestamp_text(t)) == Some(t)
}

/// A record that a gloss file can hold: a valid range, an instant that
/// chrono holds, one-token metadata, valid
/// distinct labels, and a one-line explanation that is not blank.
pub open spec fn record_ok(r: RecordView) -> bool {
    &&& r.range.valid()
    &&& chrono_instant(r.timestamp)
    &&& crate::text::is_token(r.user)
    &&& crate::text::is_token(r.agent)
    &&& crate::text::is_token(r.session_id)
    &&& labels_ok(r.labels)
    &&& free_of(r.explanation, '\n')
    &&& trim(r.explanation).len() > 0
}

/// A record as it reads back: labels sorted, explanation trimmed.
pub open spec fn normalize_record(r: RecordView) -> RecordView {
    RecordView { labels: sort_labels(r.labels), explanation: trim(r.explanation), ..r }
}

/// The fields of a record row, as `splitn` at whitespace finds them.
pub open spec fn record_fields(r: RecordView, v: u8) -> Seq<Seq<char>> {
    let head = seq![
        uuid_text(r.edit_id),
        range_text(r.range),
        timestamp_text(r.timestamp),
        r.user,
        r.agent,
        r.session_id,
    ];
    if v >= LABELS_VERSION {
        head + seq![labels_text(r.labels), risk_text(r.risk), trim(r.explanation)]
    } else {
        head + seq![trim(r.explanation)]
    }
}

proof fn lemma_record_fields_ok(r: RecordView, v: u8)
    requires
        record_ok(r),
        instant_round_trips(r.timestamp),
    ensures
        forall|j: int| 0 <= j < record_fields(r, v).len() - 1 ==> crate::text::is_token(
            #[trigger] record_fields(r, v)[j],
        ),
        trim(r.explanation).len() > 0,
        free_of(trim(r.explanation), '\n'),
        !is_ws(trim(r.explanation).last()),
        trim(trim(r.explanation)) == trim(r.explanation),
{
    reveal_strlit("none");
    reveal_strlit("low");
    reveal_strlit("medium");
    reveal_strlit("high");
    lemma_uuid_text(r.edit_id);
    lemma_range_text(r.range);
    lemma_labels_text(r.labels);
    lemma_trim(r.explanation);
    assert(crate::text::is_token(risk_text(r.risk)));
}

pub proof fn lemma_assoc(a: Seq<char>, b: Seq<char>, c: Seq<char>)
    ensures
        (a + b) + c == a + (b + c),
{
    assert((a + b) + c =~= a + (b + c));
}

/// The part of a record row after the session ID, nested from the right.
pub open spec fn row_tail(r: RecordView, v: u8) -> Seq<char> {
    let sp = seq![' '];
    let tail = trim(r.explanation);
    if v >= LABELS_VERSION {
        sp + (labels_text(r.labels) + (sp + (risk_text(r.risk) + (sp + tail))))
    } else {
        sp + tail
    }
}

/// A record row nested from the right: each field, then a space, then the rest.
pub open spec fn row_nested(r: RecordView, v: u8) -> Seq<char> {
    let sp = seq![' '];
    uuid_text(r.edit_id) + (sp + (range_text(r.range) + (sp + (timestamp_text(r.timestamp) + (sp + (
    r.user + (sp + (r.agent + (sp + (r.session_id + row_tail(r, v)))))))))))
}

proof fn lemma_record_text_shape(r: RecordView, v: u8)
    ensures
        record_text(r, v) == row_nested(r, v),
{
    reveal_strlit(" ");
    let sp = " "@;
    assert(sp == seq![' ']);
    let tl = trim(r.explanation);
    let lt = labels_text(r.labels);
    let rt = risk_text(r.risk);
    let mid = if v >= LABELS_VERSION {
        sp + lt + sp + rt
    } else {
        Seq::<char>::empty()
    };
    let u = uuid_text(r.edit_id);
    let rg = range_text(r.range);
    let ts = timestamp_text(r.timestamp);
    let l1 = u + sp;
    let l2 = l1 + rg;
    let l3 = l2 + sp;
    let l4 = l3 + ts;
    let l5 = l4 + sp;
    let l6 = l5 + r.user;
    let l7 = l6 + sp;
    let l8 = l7 + r.agent;
    let l9 = l8 + sp;
    let l10 = l9 + r.session_id;
    assert(record_text(r, v) == ((l10 + mid) + sp) + tl);
    lemma_assoc(l10 + mid, sp, tl);
    lemma_assoc(l10, mid, sp + tl);
    if v >= LABELS_VERSION {
        lemma_assoc((sp + lt) + sp, rt, sp + tl);
        lemma_assoc(sp + lt, sp, rt + (sp + tl));
        lemma_assoc(sp, lt, sp + (rt + (sp + tl)));
        assert(mid + (sp + tl) == row_tail(r, v));
    } else {
        assert(mid + (sp + tl) =~= sp + tl);
    }
    let w = row_tail(r, v);
    lemma_assoc(l9, r.session_id, w);
    lemma_assoc(l8, sp, r.session_id + w);
    lemma_assoc(l7, r.agent, sp + (r.session_id + w));
    lemma_assoc(l6, sp, r.agent + (sp + (r.session_id + w)));
    lemma_assoc(l5, r.user, sp + (r.agent + (sp + (r.session_id + w))));
    lemma_assoc(l4, sp, r.user + (sp + (r.agent + (sp + (r.session_id + w)))));
    lemma_assoc(l3, ts, sp + (r.user + (sp + (r.agent + (sp + (r.session_id + w))))));
    lemma_assoc(l2, sp, ts + (sp + (r.user + (sp + (r.agent + (sp + (r.session_id + w)))))));
    lemma_assoc(l1, rg, sp + (ts + (sp + (r.user + (sp + (r.agent + (sp + (r.session_id + w))))))));
    lemma_assoc(u, sp, rg + (sp + (ts + (sp + (r.user + (sp + (r.agent + (sp + (r.session_id
        + w)))))))));
}

/// Split at whitespace, a record row gives back its fields.
proof fn lemma_record_split(r: RecordView, v: u8)
    requires
        record_ok(r),
        instant_round_trips(r.timestamp),
    ensures
        splitn_ws(record_text(r, v), record_fields(r, v).len()) == record_fields(r, v),
        record_fields(r, v).len() == (if v >= LABELS_VERSION {
            9nat
        } else {
            7nat
        }),
{
    lemma_record_fields_ok(r, v);
    lemma_record_text_shape(r, v);
    let f = record_fields(r, v);
    let sp = seq![' '];
    let tail = trim(r.explanation);
    let n = f.len();
    assert(crate::text::is_token(f[0]) && crate::text::is_token(f[1]) && crate::text::is_token(f[2])
        && crate::text::is_token(f[3]) && crate::text::is_token(f[4]) && crate::text::is_token(f[5]));
    let w = row_tail(r, v);
    let r5 = r.session_id + w;
    let r4 = r.agent + (sp + r5);
    let r3 = r.user + (sp + r4);
    let r2 = f[2] + (sp + r3);
    let r1 = f[1] + (sp + r2);
    lemma_splitn_cons(f[0], r1, n);
    lemma_splitn_cons(f[1], r2, (n - 1) as nat);
    lemma_splitn_cons(f[2], r3, (n - 2) as nat);
    lemma_splitn_cons(f[3], r4, (n - 3) as nat);
    lemma_splitn_cons(f[4], r5, (n - 4) as nat);
    lemma_splitn_last(tail, 0);
    assert(tail.subrange(0, tail.len() as int) =~= tail);
    if v >= LABELS_VERSION {
        assert(crate::text::is_token(f[6]) && crate::text::is_token(f[7]));
        lemma_splitn_cons(f[5], f[6] + (sp + (f[7] + (sp + tail))), 4);
        lemma_splitn_cons(f[6], f[7] + (sp + tail), 3);
        lemma_splitn_cons(f[7], tail, 2);
        assert(splitn_ws(record_text(r, v), n) =~= f);
    } else {
        lemma_splitn_cons(f[5], tail, 2);
        assert(splitn_ws(record_text(r, v), n) =~= f);
    }
}

/// A record row is one line of text, starting with the edit ID.
proof fn lemma_record_line(r: RecordView, v: u8)
    requires
        record_ok(r),
        instant_round_trips(r.timestamp),
    ensures
        line_ok(record_text(r, v)),
        !is_ws(record_text(r, v)[0]),
        crate::text::first_token(record_text(r, v)) == uuid_text(r.edit_id),
{
    lemma_record_fields_ok(r, v);
    lemma_record_text_shape(r, v);
    lemma_uuid_text(r.edit_id);
    let f = record_fields(r, v);
    let sp = seq![' '];
    let tail = trim(r.explanation);
    assert forall|j: int| 0 <= j < f.len() - 1 implies free_of(#[trigger] f[j], '\n') by {
        lemma_token_free(f[j]);
    }
    assert(free_of(sp, '\n'));
    let w = row_tail(r, v);
    lemma_free_concat(sp, tail, '\n');
    if v >= LABELS_VERSION {
        lemma_free_concat(f[7], sp + tail, '\n');
        lemma_free_concat(sp, f[7] + (sp + tail), '\n');
        lemma_free_concat(f[6], sp + (f[7] + (sp + tail)), '\n');
        lemma_free_concat(sp, f[6] + (sp + (f[7] + (sp + tail))), '\n');
    }
    assert(free_of(w, '\n'));
    let r5 = r.session_id + w;
    let r4 = r.agent + (sp + r5);
    let r3 = r.user + (sp + r4);
    let r2 = f[2] + (sp + r3);
    let r1 = f[1] + (sp + r2);
    lemma_free_concat(f[5], w, '\n');
    lemma_free_concat(sp, r5, '\n');
    lemma_free_concat(f[4], sp + r5, '\n');
    lemma_free_concat(sp, r4, '\n');
    lemma_free_concat(f[3], sp + r4, '\n');
    lemma_free_concat(sp, r3, '\n');
    lemma_free_concat(f[2], sp + r3, '\n');
    lemma_free_concat(sp, r2, '\n');
    lemma_free_concat(f[1], sp + r2, '\n');
    lemma_free_concat(sp, r1, '\n');
    lemma_free_concat(f[0], sp + r1, '\n');
    let text = record_text(r, v);
    assert(text == f[0] + (sp + r1));
    assert(text.last() == tail.last()) by {
        assert(w.last() == tail.last());
        assert(r5.last() == w.last());
        assert(r4.last() == r5.last());
        assert(r3.last() == r4.last());
        assert(r2.last() == r3.last());
        assert(r1.last() == r2.last());
    }
    assert(text[0] == f[0][0]);
    assert forall|j: int| 0 <= j < 36 implies !is_ws(#[trigger] text[j]) by {
        assert(text[j] == f[0][j]);
    }
    assert(text[36] == ' ');
    lemma_find_nonws_is(text, 0, 0);
    lemma_find_ws_is(text, 0, 36);
    assert(text.subrange(0, 36) =~= f[0]);
}

/// The name of a risk reads back as that risk.
pub proof fn lemma_risk_text(r: Risk)
    ensures
        risk_parse(risk_text(r)) == Some(r),
{
    reveal_strlit("none");
    reveal_strlit("low");
    reveal_strlit("medium");
    reveal_strlit("high");
    match r {
        Risk::NoRisk => {},
        Risk::Low => {
            assert("low"@.len() != "none"@.len());
        },
        Risk::Medium => {
            assert("medium"@.len() != "none"@.len());
            assert("medium"@.len() != "low"@.len());
        },
        Risk::High => {
            assert("high"@[0] != "none"@[0]);
            assert("high"@.len() != "low"@.len());
            assert("high"@.len() != "medium"@.len());
        },
    }
}

/// A record row reads back as the normalized record.
pub proof fn lemma_record_text(r: RecordView, v: u8, path: Seq<char>, n: nat)
    requires
        record_ok(r),
        id_round_trips(r.edit_id),
        instant_round_trips(r.timestamp),
        v >= LABELS_VERSION || !uses_v2_fields(r),
    ensures
        parse_record_spec(record_text(r, v), v, path, n) == Ok::<RecordView, ErrorView>(
            normalize_record(r),
        ),
        line_ok(record_text(r, v)),
        !is_ws(record_text(r, v)[0]),
        crate::text::first_token(record_text(r, v)) == uuid_text(r.edit_id),
{
    reveal_strlit("none");
    reveal_strlit("low");
    reveal_strlit("medium");
    reveal_strlit("high");
    lemma_record_split(r, v);
    lemma_record_fields_ok(r, v);
    lemma_record_line(r, v);
    lemma_range_text(r.range);
    lemma_labels_text(r.labels);
    let f = record_fields(r, v);
    let parts = splitn_ws(record_text(r, v), f.len());
    let expected: nat = if v >= LABELS_VERSION {
        9
    } else {
        7
    };
    assert(parts == f);
    assert(parts[0] == uuid_text(r.edit_id));
    assert(parts[1] == range_text(r.range));
    assert(parts[2] == timestamp_text(r.timestamp));
    assert(parts[3] == r.user && parts[4] == r.agent && parts[5] == r.session_id);
    assert(record_parts_ok(parts, expected));
    assert(uuid_parse(parts[0]) == Some(r.edit_id));
    assert(line_range_parse(parts[1]) == Ok::<LineRange, ErrorView>(r.range));
    assert(timestamp_parse(parts[2]) == Some(r.timestamp));
    if v < LABELS_VERSION {
        assert(parts[6] == trim(r.explanation));
        assert(r.labels.len() == 0);
        assert(sort_labels(r.labels) =~= Seq::<Seq<char>>::empty());
        assert(r.risk == Risk::NoRisk);
    } else {
        assert(parts[6] == labels_text(r.labels));
        assert(parts[7] == risk_text(r.risk));
        assert(parts[8] == trim(r.explanation));
        assert(parse_labels(parts[6]) == Some(sort_labels(r.labels)));
        lemma_risk_text(r.risk);
    }
}

/// A body line that a gloss file can hold: a valid record, or an opaque line
/// that is one line of text, not blank, and does not start with what looks
/// like an edit ID.
pub open spec fn line_view_ok(l: LineView) -> bool {
    match l {
        LineView::Record(r) => record_ok(r),
        LineView::Opaque(s) => line_ok(s) && !crate::text::all_ws(s) && !record_shaped(
            crate::text::first_token(s),
        ),
    }
}

/// A gloss file that reads back from its text: a supported version, an
/// `updated` instant that chrono holds, a
/// one-token editor, non-empty one-line extra headers, and well-formed body
/// lines.
pub open spec fn file_ok(f: FileView) -> bool {
    &&& MIN_VERSION <= f.version <= CURRENT_VERSION
    &&& chrono_instant(f.updated)
    &&& crate::text::is_token(f.editor)
    &&& forall|j: int| 0 <= j < f.headers.len() ==> (#[trigger] f.headers[j]).len() > 0 && line_ok(
        f.headers[j],
    )
    &&& forall|j: int| 0 <= j < f.body.len() ==> line_view_ok(#[trigger] f.body[j])
}

/// The edit IDs and instants of a file read back as themselves through the
/// outside parsers.
pub open spec fn reads_back(f: FileView) -> bool {
    &&& instant_round_trips(f.updated)
    &&& forall|j: int| 0 <= j < f.body.len() ==> line_reads_back(#[trigger] f.body[j])
}

pub open spec fn line_reads_back(l: LineView) -> bool {
    match l {
        LineView::Record(r) => id_round_trips(r.edit_id) && instant_round_trips(r.timestamp),
        LineView::Opaque(_) => true,
    }
}

pub open spec fn normalize_line(l: LineView) -> LineView {
    match l {
        LineView::Record(r) => LineView::Record(normalize_record(r)),
        LineView::Opaque(s) => LineView::Opaque(s),
    }
}

/// A file as it reads back after being written: its version promoted to
/// the one it is written with, its labels sorted, its explanations trimmed.
pub open spec fn normalize(f: FileView) -> FileView {
    FileView {
        version: render_version(f),
        body: f.body.map_values(|l: LineView| normalize_line(l)),
        ..f
    }
}

pub proof fn lemma_strip_prefix_concat(p: Seq<char>, x: Seq<char>)
    ensures
        crate::text::strip_prefix(p + x, p) == Some(x),
{
    assert((p + x).subrange(0, p.len() as int) =~= p);
    assert((p + x).subrange(p.len() as int, (p + x).len() as int) =~= x);
}

/// Writing never lowers the declared version, stays within the supported
/// versions, and writes a file whose records use labels or a risk at least
/// at the version that introduced them.
pub proof fn lemma_render_version(f: FileView)
    requires
        MIN_VERSION <= f.version <= CURRENT_VERSION,
    ensures
        MIN_VERSION <= render_version(f) <= CURRENT_VERSION,
        render_version(f) >= f.version,
        forall|j: int| 0 <= j < f.body.len() ==> (render_version(f) >= LABELS_VERSION
            || !line_uses_v2(#[trigger] f.body[j])),
{
}

proof fn lemma_parse_body(f: FileView, path: Seq<char>, i: int)
    requires
        file_ok(f),
        reads_back(f),
        4 + f.headers.len() <= i <= render_lines(f).len(),
    ensures
        parse_body_spec(render_lines(f), i, render_version(f), path) == Ok::<Seq<LineView>, ErrorView>(
            normalize(f).body.skip(i - 4 - f.headers.len()),
        ),
    decreases render_lines(f).len() - i,
{
    let ls = render_lines(f);
    let v = render_version(f);
    let b0 = 4 + f.headers.len();
    let nb = normalize(f).body;
    lemma_render_version(f);
    if i >= ls.len() {
        assert(nb.skip(i - b0) =~= Seq::<LineView>::empty());
    } else {
        let k = i - b0;
        let l = f.body[k];
        assert(ls[i] == line_text(l, v));
        assert(line_view_ok(l));
        assert(line_reads_back(l));
        lemma_parse_body(f, path, i + 1);
        assert(nb.skip(k) =~= seq![nb[k]] + nb.skip(k + 1));
        match l {
            LineView::Record(r) => {
                lemma_record_text(r, v, path, (i + 1) as nat);
                lemma_uuid_text(r.edit_id);
                assert(!crate::text::all_ws(ls[i])) by {
                    assert(!is_ws(ls[i][0]));
                }
            },
            LineView::Opaque(t) => {},
        }
    }
}

/// Text that `render` writes for a well-formed file reads back as the
/// normalized file, provided the edit IDs and instants read back through
/// the outside parsers.
pub proof fn lemma_parse_render(f: FileView, path: Seq<char>)
    requires
        file_ok(f),
        reads_back(f),
    ensures
        parse_spec(render_spec(f), path) == Ok::<FileView, ErrorView>(normalize(f)),
{
    reveal_strlit("version: ");
    reveal_strlit("updated: ");
    reveal_strlit("editor: ");
    let ls = render_lines(f);
    let v = render_version(f);
    let nh = f.headers.len() as int;
    lemma_render_version(f);
    let l0 = "version: "@ + dec(v as nat);
    let l1 = "updated: "@ + timestamp_text(f.updated);
    let l2 = "editor: "@ + f.editor;
    assert(ls[0] == l0 && ls[1] == l1 && ls[2] == l2);
    assert(ls[3 + nh] == Seq::<char>::empty());
    crate::text::lemma_dec_digits(v as nat);
    assert forall|i: int| 0 <= i < ls.len() implies line_ok(#[trigger] ls[i]) by {
        if i == 0 {
            assert forall|j: int| 0 <= j < l0.len() implies l0[j] != '\n' by {
                if j >= 9 {
                    assert(l0[j] == dec(v as nat)[j - 9]);
                    assert(crate::text::is_digit(dec(v as nat)[j - 9]));
                }
            }
            assert(l0.last() == dec(v as nat).last());
            assert(crate::text::is_digit(dec(v as nat)[dec(v as nat).len() - 1]));
        } else if i == 1 {
            let t = timestamp_text(f.updated);
            lemma_token_free(t);
            assert forall|j: int| 0 <= j < l1.len() implies l1[j] != '\n' by {
                if j >= 9 {
                    assert(l1[j] == t[j - 9]);
                }
            }
            assert(l1.last() == t.last());
            assert(!is_ws(t[t.len() - 1]));
        } else if i == 2 {
            lemma_token_free(f.editor);
            assert forall|j: int| 0 <= j < l2.len() implies l2[j] != '\n' by {
                if j >= 8 {
                    assert(l2[j] == f.editor[j - 8]);
                }
            }
            assert(l2.last() == f.editor.last());
            assert(!is_ws(f.editor[f.editor.len() - 1]));
        } else if i < 3 + nh {
            assert(ls[i] == f.headers[i - 3]);
        } else if i == 3 + nh {
        } else {
            let l = f.body[i - 4 - nh];
            assert(ls[i] == line_text(l, v));
            assert(line_view_ok(l));
            assert(line_reads_back(l));
            match l {
                LineView::Record(r) => {
                    lemma_record_text(r, v, path, 0);
                },
                LineView::Opaque(t) => {},
            }
        }
    }
    lemma_lines_join(ls);
    assert(crate::text::lines(render_spec(f)) == ls);
    lemma_strip_prefix_concat("version: "@, dec(v as nat));
    crate::text::lemma_parse_dec(v as nat, 255);
    lemma_strip_prefix_concat("updated: "@, timestamp_text(f.updated));
    lemma_strip_prefix_concat("editor: "@, f.editor);
    assert forall|j: int| 3 <= j < 3 + nh implies ls[j].len() > 0 by {
        assert(ls[j] == f.headers[j - 3]);
    }
    lemma_header_end_is(ls, 3, 3 + nh);
    assert(ls.subrange(3, 3 + nh) =~= f.headers);
    lemma_parse_body(f, path, 4 + nh);
    assert(normalize(f).body.skip(0) =~= normalize(f).body);
    assert(parse_after_updated(ls, v, f.updated, path) == Ok::<FileView, ErrorView>(normalize(f)));
}

proof fn lemma_normalize_record(r: RecordView, v: u8)
    requires
        record_ok(r),
    ensures
        record_ok(normalize_record(r)),
        record_text(normalize_record(r), v) == record_text(r, v),
        normalize_record(normalize_record(r)) == normalize_record(r),
        uses_v2_fields(normalize_record(r)) == uses_v2_fields(r),
{
    lemma_labels_text(r.labels);
    lemma_sort_labels(r.labels);
    lemma_trim(r.explanation);
    let sl = sort_labels(r.labels);
    lemma_sort_labels_sorted(sl);
    let n = normalize_record(r);
    assert(n.labels == sl);
    assert(normalize_record(n) == n);
}

/// Writing the normalized file gives the same text, the normalized file is
/// well formed, and normalizing twice changes nothing more: so what a
/// well-formed file's text reads back as is written as that same text.
pub proof fn lemma_render_normalized(f: FileView)
    requires
        file_ok(f),
    ensures
        file_ok(normalize(f)),
        render_spec(normalize(f)) == render_spec(f),
        normalize(normalize(f)) == normalize(f),
{
    let nf = normalize(f);
    let v = render_version(f);
    lemma_render_version(f);
    assert forall|j: int| 0 <= j < f.body.len() implies line_uses_v2(#[trigger] nf.body[j])
        == line_uses_v2(f.body[j]) && line_view_ok(nf.body[j]) && line_text(nf.body[j], v)
        == line_text(f.body[j], v) && normalize_line(nf.body[j]) == nf.body[j] by {
        assert(line_view_ok(f.body[j]));
        match f.body[j] {
            LineView::Record(r) => {
                lemma_normalize_record(r, v);
            },
            LineView::Opaque(t) => {},
        }
    }
    assert(render_version(nf) == v) by {
        if exists|i: int| 0 <= i < nf.body.len() && line_uses_v2(#[trigger] nf.body[i]) {
            let i = choose|i: int| 0 <= i < nf.body.len() && line_uses_v2(#[trigger] nf.body[i]);
            assert(line_uses_v2(f.body[i]));
        }
    }
    assert(body_texts(nf.body, v) =~= body_texts(f.body, v));
    assert(render_lines(nf) =~= render_lines(f));
    assert(nf.body.map_values(|l: LineView| normalize_line(l)) =~= nf.body);
}
} // verus!
