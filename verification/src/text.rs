//! Character-level helpers with the semantics of the `str` methods that the
//! gloss format relies on: `lines`, `trim`, `split`, `splitn`,
//! `split_whitespace`, integer parsing and decimal printing.

use vstd::prelude::*;

verus! {

broadcast use vstd::std_specs::iter::group_iter_axioms, vstd::string::axiom_spec_iter;

/// Unicode `White_Space`, the property that `char::is_whitespace` tests.
pub open spec fn is_ws(c: char) -> bool {
    let u = c as u32;
    ||| 0x09 <= u <= 0x0d
    ||| u == 0x20
    ||| u == 0x85
    ||| u == 0xa0
    ||| u == 0x1680
    ||| 0x2000 <= u <= 0x200a
    ||| u == 0x2028
    ||| u == 0x2029
    ||| u == 0x202f
    ||| u == 0x205f
    ||| u == 0x3000
}

/// No character of `s` is whitespace.
pub open spec fn no_ws(s: Seq<char>) -> bool {
    forall|j: int| 0 <= j < s.len() ==> !is_ws(#[trigger] s[j])
}

/// Every character of `s` is whitespace (true of the empty sequence).
pub open spec fn all_ws(s: Seq<char>) -> bool {
    forall|j: int| 0 <= j < s.len() ==> is_ws(#[trigger] s[j])
}

/// A non-empty run of characters without whitespace.
pub open spec fn is_token(s: Seq<char>) -> bool {
    s.len() > 0 && no_ws(s)
}

/// The views of a sequence of character vectors.
pub open spec fn seqs_view(v: Seq<Vec<char>>) -> Seq<Seq<char>> {
    v.map_values(|x: Vec<char>| x@)
}

/// Index of the first `c` at or after `i`, or `s.len()` when there is none.
pub open spec fn find_char_from(s: Seq<char>, c: char, i: int) -> int
    decreases s.len() - i,
{
    if i < 0 || i >= s.len() {
        s.len() as int
    } else if s[i] == c {
        i
    } else {
        find_char_from(s, c, i + 1)
    }
}

/// Index of the first whitespace at or after `i`, or `s.len()`.
pub open spec fn find_ws_from(s: Seq<char>, i: int) -> int
    decreases s.len() - i,
{
    if i < 0 || i >= s.len() {
        s.len() as int
    } else if is_ws(s[i]) {
        i
    } else {
        find_ws_from(s, i + 1)
    }
}

/// Index of the first non-whitespace at or after `i`, or `s.len()`.
pub open spec fn find_nonws_from(s: Seq<char>, i: int) -> int
    decreases s.len() - i,
{
    if i < 0 || i >= s.len() {
        s.len() as int
    } else if !is_ws(s[i]) {
        i
    } else {
        find_nonws_from(s, i + 1)
    }
}

/// End of `s.take(j)` once trailing whitespace is removed.
pub open spec fn trim_end_at(s: Seq<char>, j: int) -> int
    decreases j,
{
    if j <= 0 || j > s.len() {
        0
    } else if !is_ws(s[j - 1]) {
        j
    } else {
        trim_end_at(s, j - 1)
    }
}

pub proof fn lemma_find_char(s: Seq<char>, c: char, i: int)
    requires
        0 <= i <= s.len(),
    ensures
        i <= find_char_from(s, c, i) <= s.len(),
        forall|j: int| i <= j < find_char_from(s, c, i) ==> s[j] != c,
        find_char_from(s, c, i) < s.len() ==> s[find_char_from(s, c, i)] == c,
    decreases s.len() - i,
{
    if i < s.len() && s[i] != c {
        lemma_find_char(s, c, i + 1);
    }
}

/// `find_char_from` is the only index with its defining property.
pub proof fn lemma_find_char_is(s: Seq<char>, c: char, i: int, k: int)
    requires
        0 <= i <= k <= s.len(),
        forall|j: int| i <= j < k ==> s[j] != c,
        k < s.len() ==> s[k] == c,
    ensures
        find_char_from(s, c, i) == k,
{
    lemma_find_char(s, c, i);
}

pub proof fn lemma_find_ws(s: Seq<char>, i: int)
    requires
        0 <= i <= s.len(),
    ensures
        i <= find_ws_from(s, i) <= s.len(),
        forall|j: int| i <= j < find_ws_from(s, i) ==> !is_ws(s[j]),
        find_ws_from(s, i) < s.len() ==> is_ws(s[find_ws_from(s, i)]),
    decreases s.len() - i,
{
    if i < s.len() && !is_ws(s[i]) {
        lemma_find_ws(s, i + 1);
    }
}

pub proof fn lemma_find_ws_is(s: Seq<char>, i: int, k: int)
    requires
        0 <= i <= k <= s.len(),
        forall|j: int| i <= j < k ==> !is_ws(s[j]),
        k < s.len() ==> is_ws(s[k]),
    ensures
        find_ws_from(s, i) == k,
{
    lemma_find_ws(s, i);
}

pub proof fn lemma_find_nonws(s: Seq<char>, i: int)
    requires
        0 <= i <= s.len(),
    ensures
        i <= find_nonws_from(s, i) <= s.len(),
        forall|j: int| i <= j < find_nonws_from(s, i) ==> is_ws(s[j]),
        find_nonws_from(s, i) < s.len() ==> !is_ws(s[find_nonws_from(s, i)]),
    decreases s.len() - i,
{
    if i < s.len() && is_ws(s[i]) {
        lemma_find_nonws(s, i + 1);
    }
}

pub proof fn lemma_find_nonws_is(s: Seq<char>, i: int, k: int)
    requires
        0 <= i <= k <= s.len(),
        forall|j: int| i <= j < k ==> is_ws(s[j]),
        k < s.len() ==> !is_ws(s[k]),
    ensures
        find_nonws_from(s, i) == k,
{
    lemma_find_nonws(s, i);
}

pub proof fn lemma_trim_end(s: Seq<char>, j: int)
    requires
        0 <= j <= s.len(),
    ensures
        0 <= trim_end_at(s, j) <= j,
        forall|k: int| trim_end_at(s, j) <= k < j ==> is_ws(s[k]),
        trim_end_at(s, j) > 0 ==> !is_ws(s[trim_end_at(s, j) - 1]),
    decreases j,
{
    if j > 0 && is_ws(s[j - 1]) {
        lemma_trim_end(s, j - 1);
    }
}

pub proof fn lemma_trim_end_is(s: Seq<char>, j: int, k: int)
    requires
        0 <= k <= j <= s.len(),
        forall|m: int| k <= m < j ==> is_ws(s[m]),
        k > 0 ==> !is_ws(s[k - 1]),
    ensures
        trim_end_at(s, j) == k,
{
    lemma_trim_end(s, j);
}

/// `s` without one trailing carriage return.
pub open spec fn strip_cr(s: Seq<char>) -> Seq<char> {
    if s.len() > 0 && s.last() == '\r' {
        s.drop_last()
    } else {
        s
    }
}

/// The lines of `s` from index `start` on, as `str::lines` yields them:
/// split after each `'\n'`, drop the `'\n'` and a `'\r'` before it, and
/// yield no empty line after a final `'\n'`.
pub open spec fn lines_from(s: Seq<char>, start: int) -> Seq<Seq<char>>
    decreases s.len() - start,
{
    if start < 0 || start >= s.len() {
        seq![]
    } else {
        let k = find_char_from(s, '\n', start);
        if k >= s.len() {
            seq![s.subrange(start, s.len() as int)]
        } else {
            proof {
                lemma_find_char(s, '\n', start);
            }
            seq![strip_cr(s.subrange(start, k))] + lines_from(s, k + 1)
        }
    }
}

/// `str::lines`.
pub open spec fn lines(s: Seq<char>) -> Seq<Seq<char>> {
    lines_from(s, 0)
}

/// `str::trim`: leading and trailing whitespace removed.
pub open spec fn trim(s: Seq<char>) -> Seq<char> {
    let lo = find_nonws_from(s, 0);
    if lo >= s.len() {
        seq![]
    } else {
        s.subrange(lo, trim_end_at(s, s.len() as int))
    }
}

/// The first item of `str::split_whitespace`, or the empty sequence.
pub open spec fn first_token(s: Seq<char>) -> Seq<char> {
    let a = find_nonws_from(s, 0);
    s.subrange(a, find_ws_from(s, a))
}

/// `s[i..].splitn(n, char::is_whitespace)`.
pub open spec fn splitn_ws_from(s: Seq<char>, i: int, n: nat) -> Seq<Seq<char>>
    decreases n,
{
    if n == 0 {
        seq![]
    } else if n == 1 {
        seq![s.subrange(i, s.len() as int)]
    } else {
        let k = find_ws_from(s, i);
        if k >= s.len() {
            seq![s.subrange(i, s.len() as int)]
        } else {
            seq![s.subrange(i, k)] + splitn_ws_from(s, k + 1, (n - 1) as nat)
        }
    }
}

/// `s.splitn(n, char::is_whitespace)`.
pub open spec fn splitn_ws(s: Seq<char>, n: nat) -> Seq<Seq<char>> {
    splitn_ws_from(s, 0, n)
}

/// `s[i..].split(c)`.
pub open spec fn split_from(s: Seq<char>, c: char, i: int) -> Seq<Seq<char>>
    decreases s.len() - i,
{
    if i < 0 || i > s.len() {
        seq![]
    } else {
        let k = find_char_from(s, c, i);
        if k >= s.len() {
            seq![s.subrange(i, s.len() as int)]
        } else {
            proof {
                lemma_find_char(s, c, i);
            }
            seq![s.subrange(i, k)] + split_from(s, c, k + 1)
        }
    }
}

/// `s.split(c)`.
pub open spec fn split(s: Seq<char>, c: char) -> Seq<Seq<char>> {
    split_from(s, c, 0)
}

/// `s.split_once(c)`.
pub open spec fn split_once(s: Seq<char>, c: char) -> Option<(Seq<char>, Seq<char>)> {
    let k = find_char_from(s, c, 0);
    if k >= s.len() {
        None
    } else {
        Some((s.subrange(0, k), s.subrange(k + 1, s.len() as int)))
    }
}

/// `s.strip_prefix(p)`.
pub open spec fn strip_prefix(s: Seq<char>, p: Seq<char>) -> Option<Seq<char>> {
    if p.len() <= s.len() && s.subrange(0, p.len() as int) == p {
        Some(s.subrange(p.len() as int, s.len() as int))
    } else {
        None
    }
}

/// `s.strip_suffix(p)`.
pub open spec fn strip_suffix(s: Seq<char>, p: Seq<char>) -> Option<Seq<char>> {
    if p.len() <= s.len() && s.subrange(s.len() - p.len(), s.len() as int) == p {
        Some(s.subrange(0, s.len() - p.len()))
    } else {
        None
    }
}

/// `s` with every `from` replaced by `to`.
pub open spec fn replace_char(s: Seq<char>, from: char, to: char) -> Seq<char> {
    s.map_values(|c: char| if c == from { to } else { c })
}

pub open spec fn is_digit(c: char) -> bool {
    '0' <= c <= '9'
}

pub open spec fn digit_value(c: char) -> nat {
    ((c as u32) - ('0' as u32)) as nat
}

pub open spec fn digit_char(d: nat) -> char {
    ((d + ('0' as u32)) as u32) as char
}

pub open spec fn all_digits(s: Seq<char>) -> bool {
    forall|j: int| 0 <= j < s.len() ==> is_digit(#[trigger] s[j])
}

/// The number that a run of decimal digits spells.
pub open spec fn digits_value(s: Seq<char>) -> nat
    decreases s.len(),
{
    if s.len() == 0 {
        0
    } else {
        digits_value(s.drop_last()) * 10 + digit_value(s.last())
    }
}

/// `str::parse` for an unsigned integer type whose largest value is `max`:
/// an optional `+`, then one or more ASCII digits, with a value that fits.
pub open spec fn parse_unsigned(s: Seq<char>, max: nat) -> Option<nat> {
    let d = if s.len() > 0 && s[0] == '+' {
        s.subrange(1, s.len() as int)
    } else {
        s
    };
    if d.len() == 0 || !all_digits(d) || digits_value(d) > max {
        None
    } else {
        Some(digits_value(d))
    }
}

/// Decimal digits of `n`, as `Display` prints an unsigned integer.
pub open spec fn dec(n: nat) -> Seq<char>
    decreases n,
{
    if n < 10 {
        seq![digit_char(n)]
    } else {
        dec(n / 10) + seq![digit_char(n % 10)]
    }
}

pub fn char_is_ws(c: char) -> (b: bool)
    ensures
        b == is_ws(c),
{
    let u: u32 = c as u32;
    (0x09 <= u && u <= 0x0d) || u == 0x20 || u == 0x85 || u == 0xa0 || u == 0x1680 || (0x2000
        <= u && u <= 0x200a) || u == 0x2028 || u == 0x2029 || u == 0x202f || u == 0x205f || u
        == 0x3000
}

/// The characters of a string slice.
pub fn chars_of(s: &str) -> (v: Vec<char>)
    ensures
        v@ == s@,
{
    let mut v: Vec<char> = Vec::new();
    for c in it: s.chars()
        invariant
            v@ == it.seq().take(it.index() as int),
            it.seq() == s@,
    {
        v.push(c);
    }
    v
}

/// Collects the characters into a `String` with std's `Iterator::collect`.
/// Claimed: the string holds exactly these characters, in order.
#[verifier::external_body]
pub(crate) fn string_of(v: &Vec<char>) -> (s: String)
    ensures
        s@ == v@,
{
    v.iter().collect()
}

/// Appends the characters of `s`.
pub fn push_str(out: &mut Vec<char>, s: &str)
    ensures
        final(out)@ == old(out)@ + s@,
{
    let ghost start = out@;
    for c in it: s.chars()
        invariant
            out@ == start + it.seq().take(it.index() as int),
            it.seq() == s@,
    {
        out.push(c);
    }
}

/// Appends `s[a..b]`.
pub fn push_range(out: &mut Vec<char>, s: &Vec<char>, a: usize, b: usize)
    requires
        a <= b <= s@.len(),
    ensures
        final(out)@ == old(out)@ + s@.subrange(a as int, b as int),
{
    let ghost start = out@;
    let mut i: usize = a;
    while i < b
        invariant
            a <= i <= b <= s@.len(),
            out@ == start + s@.subrange(a as int, i as int),
        decreases b - i,
    {
        out.push(s[i]);
        i = i + 1;
        proof {
            assert(s@.subrange(a as int, i as int) =~= s@.subrange(a as int, i - 1).push(s@[i - 1]));
        }
    }
}

/// Appends all of `s`.
pub fn push_all(out: &mut Vec<char>, s: &Vec<char>)
    ensures
        final(out)@ == old(out)@ + s@,
{
    push_range(out, s, 0, s.len());
    proof {
        assert(s@.subrange(0, s@.len() as int) =~= s@);
    }
}

/// `s[a..b]` as a new vector.
pub fn slice_of(s: &Vec<char>, a: usize, b: usize) -> (r: Vec<char>)
    requires
        a <= b <= s@.len(),
    ensures
        r@ == s@.subrange(a as int, b as int),
{
    let mut r: Vec<char> = Vec::new();
    push_range(&mut r, s, a, b);
    proof {
        assert(Seq::<char>::empty() + s@.subrange(a as int, b as int) =~= s@.subrange(
            a as int,
            b as int,
        ));
    }
    r
}

pub fn copy_of(s: &Vec<char>) -> (r: Vec<char>)
    ensures
        r@ == s@,
{
    let r = slice_of(s, 0, s.len());
    proof {
        assert(s@.subrange(0, s@.len() as int) =~= s@);
    }
    r
}

pub fn find_char(s: &Vec<char>, c: char, i: usize) -> (k: usize)
    requires
        i <= s@.len(),
    ensures
        k == find_char_from(s@, c, i as int),
{
    let mut k: usize = i;
    while k < s.len() && s[k] != c
        invariant
            i <= k <= s@.len(),
            forall|j: int| i <= j < k ==> s@[j] != c,
        decreases s@.len() - k,
    {
        k = k + 1;
    }
    proof {
        lemma_find_char_is(s@, c, i as int, k as int);
    }
    k
}

pub fn find_ws(s: &Vec<char>, i: usize) -> (k: usize)
    requires
        i <= s@.len(),
    ensures
        k == find_ws_from(s@, i as int),
{
    let mut k: usize = i;
    while k < s.len() && !char_is_ws(s[k])
        invariant
            i <= k <= s@.len(),
            forall|j: int| i <= j < k ==> !is_ws(s@[j]),
        decreases s@.len() - k,
    {
        k = k + 1;
    }
    proof {
        lemma_find_ws_is(s@, i as int, k as int);
    }
    k
}

pub fn find_nonws(s: &Vec<char>, i: usize) -> (k: usize)
    requires
        i <= s@.len(),
    ensures
        k == find_nonws_from(s@, i as int),
{
    let mut k: usize = i;
    while k < s.len() && char_is_ws(s[k])
        invariant
            i <= k <= s@.len(),
            forall|j: int| i <= j < k ==> is_ws(s@[j]),
        decreases s@.len() - k,
    {
        k = k + 1;
    }
    proof {
        lemma_find_nonws_is(s@, i as int, k as int);
    }
    k
}

pub fn trim_end_index(s: &Vec<char>) -> (k: usize)
    ensures
        k == trim_end_at(s@, s@.len() as int),
{
    let mut k: usize = s.len();
    while k > 0 && char_is_ws(s[k - 1])
        invariant
            0 <= k <= s@.len(),
            forall|m: int| k <= m < s@.len() ==> is_ws(s@[m]),
        decreases k,
    {
        k = k - 1;
    }
    proof {
        lemma_trim_end_is(s@, s@.len() as int, k as int);
    }
    k
}

/// Whether every character is whitespace (`s.trim().is_empty()`).
pub fn is_blank(s: &Vec<char>) -> (b: bool)
    ensures
        b == all_ws(s@),
        b == (trim(s@).len() == 0),
{
    let k = find_nonws(s, 0);
    proof {
        lemma_find_nonws(s@, 0);
        lemma_find_ws_trim_nonempty(s@);
    }
    k >= s.len()
}

pub proof fn lemma_find_ws_trim_nonempty(s: Seq<char>)
    ensures
        find_nonws_from(s, 0) < s.len() ==> trim(s).len() > 0,
        find_nonws_from(s, 0) >= s.len() ==> trim(s).len() == 0,
{
    lemma_find_nonws(s, 0);
    lemma_trim_end(s, s.len() as int);
    if find_nonws_from(s, 0) < s.len() {
        let lo = find_nonws_from(s, 0);
        let hi = trim_end_at(s, s.len() as int);
        if hi <= lo {
            assert(is_ws(s[lo]));
        }
    }
}

/// `str::trim`.
pub fn trim_chars(s: &Vec<char>) -> (r: Vec<char>)
    ensures
        r@ == trim(s@),
{
    let lo = find_nonws(s, 0);
    if lo >= s.len() {
        return Vec::new();
    }
    let hi = trim_end_index(s);
    proof {
        lemma_find_ws_trim_nonempty(s@);
        lemma_find_nonws(s@, 0);
        lemma_trim_end(s@, s@.len() as int);
        if hi <= lo {
            assert(is_ws(s@[lo as int]));
        }
    }
    slice_of(s, lo, hi)
}

/// `str::lines`.
pub fn split_lines(s: &Vec<char>) -> (r: Vec<Vec<char>>)
    ensures
        seqs_view(r@) == lines(s@),
{
    let mut r: Vec<Vec<char>> = Vec::new();
    let mut start: usize = 0;
    let n = s.len();
    while start < n
        invariant
            start <= n,
            n == s@.len(),
            seqs_view(r@) + lines_from(s@, start as int) == lines(s@),
        decreases n - start,
    {
        let k = find_char(s, '\n', start);
        proof {
            lemma_find_char(s@, '\n', start as int);
        }
        let ghost before = seqs_view(r@);
        if k >= n {
            let piece = slice_of(s, start, n);
            r.push(piece);
            proof {
                assert(seqs_view(r@) =~= before.push(piece@));
                assert(lines_from(s@, n as int) =~= Seq::<Seq<char>>::empty());
                assert(seqs_view(r@) + lines_from(s@, n as int) =~= before + lines_from(
                    s@,
                    start as int,
                ));
            }
            start = n;
        } else {
            let mut piece = slice_of(s, start, k);
            if piece.len() > 0 && piece[piece.len() - 1] == '\r' {
                piece.pop();
            }
            proof {
                assert(piece@ =~= strip_cr(s@.subrange(start as int, k as int)));
            }
            r.push(piece);
            proof {
                assert(seqs_view(r@) =~= before.push(piece@));
                assert(seqs_view(r@) + lines_from(s@, k + 1) =~= before + lines_from(
                    s@,
                    start as int,
                ));
            }
            start = k + 1;
        }
    }
    proof {
        assert(seqs_view(r@) + lines_from(s@, start as int) =~= seqs_view(r@));
    }
    r
}


/// The first item of `s.split_whitespace()`, or nothing.
pub fn first_token_of(s: &Vec<char>) -> (r: Vec<char>)
    ensures
        r@ == first_token(s@),
{
    let a = find_nonws(s, 0);
    proof {
        lemma_find_nonws(s@, 0);
    }
    let b = find_ws(s, a);
    proof {
        lemma_find_ws(s@, a as int);
    }
    slice_of(s, a, b)
}

/// `s.splitn(n, char::is_whitespace)`.
pub fn splitn_whitespace(s: &Vec<char>, n: usize) -> (r: Vec<Vec<char>>)
    ensures
        seqs_view(r@) == splitn_ws(s@, n as nat),
{
    let mut r: Vec<Vec<char>> = Vec::new();
    if n == 0 {
        return r;
    }
    let len = s.len();
    let mut i: usize = 0;
    let mut left: usize = n;
    let mut done = false;
    while !done
        invariant
            len == s@.len(),
            i <= len,
            1 <= left <= n,
            !done ==> seqs_view(r@) + splitn_ws_from(s@, i as int, left as nat) == splitn_ws(
                s@,
                n as nat,
            ),
            done ==> seqs_view(r@) == splitn_ws(s@, n as nat),
        decreases len - i + (if done { 0int } else { 1int }),
    {
        let ghost before = seqs_view(r@);
        if left == 1 {
            let piece = slice_of(s, i, len);
            r.push(piece);
            proof {
                assert(seqs_view(r@) =~= before.push(piece@));
                assert(seqs_view(r@) =~= before + splitn_ws_from(s@, i as int, left as nat));
            }
            done = true;
        } else {
            let k = find_ws(s, i);
            proof {
                lemma_find_ws(s@, i as int);
            }
            if k >= len {
                let piece = slice_of(s, i, len);
                r.push(piece);
                proof {
                    assert(seqs_view(r@) =~= before.push(piece@));
                    assert(seqs_view(r@) =~= before + splitn_ws_from(s@, i as int, left as nat));
                }
                done = true;
            } else {
                let piece = slice_of(s, i, k);
                r.push(piece);
                proof {
                    assert(seqs_view(r@) =~= before.push(piece@));
                    assert(seqs_view(r@) + splitn_ws_from(s@, k + 1, (left - 1) as nat)
                        =~= before + splitn_ws_from(s@, i as int, left as nat));
                }
                i = k + 1;
                left = left - 1;
            }
        }
    }
    r
}

/// `s.split(c)`.
pub fn split_on(s: &Vec<char>, c: char) -> (r: Vec<Vec<char>>)
    ensures
        seqs_view(r@) == split(s@, c),
        r@.len() >= 1,
{
    let mut r: Vec<Vec<char>> = Vec::new();
    let len = s.len();
    let mut i: usize = 0;
    let mut done = false;
    while !done
        invariant
            len == s@.len(),
            i <= len,
            !done ==> seqs_view(r@) + split_from(s@, c, i as int) == split(s@, c),
            done ==> seqs_view(r@) == split(s@, c) && r@.len() >= 1,
        decreases len - i + (if done { 0int } else { 1int }),
    {
        let ghost before = seqs_view(r@);
        let k = find_char(s, c, i);
        proof {
            lemma_find_char(s@, c, i as int);
        }
        if k >= len {
            let piece = slice_of(s, i, len);
            r.push(piece);
            proof {
                assert(seqs_view(r@) =~= before.push(piece@));
                assert(seqs_view(r@) =~= before + split_from(s@, c, i as int));
            }
            done = true;
        } else {
            let piece = slice_of(s, i, k);
            r.push(piece);
            proof {
                assert(seqs_view(r@) =~= before.push(piece@));
                assert(seqs_view(r@) + split_from(s@, c, k + 1) =~= before + split_from(
                    s@,
                    c,
                    i as int,
                ));
            }
            i = k + 1;
        }
    }
    r
}

/// `s.split_once(c)`.
pub fn split_once_on(s: &Vec<char>, c: char) -> (r: Option<(Vec<char>, Vec<char>)>)
    ensures
        match r {
            Some((a, b)) => split_once(s@, c) == Some((a@, b@)),
            None => split_once(s@, c) is None,
        },
{
    let k = find_char(s, c, 0);
    proof {
        lemma_find_char(s@, c, 0);
    }
    if k >= s.len() {
        None
    } else {
        Some((slice_of(s, 0, k), slice_of(s, k + 1, s.len())))
    }
}

/// `s.strip_prefix(p)`.
pub fn strip_prefix_of(s: &Vec<char>, p: &str) -> (r: Option<Vec<char>>)
    ensures
        match r {
            Some(rest) => strip_prefix(s@, p@) == Some(rest@),
            None => strip_prefix(s@, p@) is None,
        },
{
    let pc = chars_of(p);
    if pc.len() > s.len() {
        return None;
    }
    let mut i: usize = 0;
    while i < pc.len()
        invariant
            pc@ == p@,
            pc@.len() <= s@.len(),
            i <= pc@.len(),
            forall|j: int| 0 <= j < i ==> s@[j] == pc@[j],
        decreases pc@.len() - i,
    {
        if s[i] != pc[i] {
            proof {
                assert(s@.subrange(0, pc@.len() as int)[i as int] != pc@[i as int]);
            }
            return None;
        }
        i = i + 1;
    }
    proof {
        assert(s@.subrange(0, pc@.len() as int) =~= pc@);
    }
    Some(slice_of(s, pc.len(), s.len()))
}

/// Whether `s` spells exactly `p`.
pub fn eq_str(s: &Vec<char>, p: &str) -> (b: bool)
    ensures
        b == (s@ == p@),
{
    let pc = chars_of(p);
    eq_chars(s, &pc)
}

/// Whether two character vectors are equal.
pub fn eq_chars(s: &Vec<char>, t: &Vec<char>) -> (b: bool)
    ensures
        b == (s@ == t@),
{
    if s.len() != t.len() {
        return false;
    }
    let mut i: usize = 0;
    while i < s.len()
        invariant
            s@.len() == t@.len(),
            i <= s@.len(),
            forall|j: int| 0 <= j < i ==> s@[j] == t@[j],
        decreases s@.len() - i,
    {
        if s[i] != t[i] {
            return false;
        }
        i = i + 1;
    }
    proof {
        assert(s@ =~= t@);
    }
    true
}

pub proof fn lemma_digits_value_step(d: Seq<char>, j: int)
    requires
        0 <= j < d.len(),
    ensures
        digits_value(d.subrange(0, j + 1)) == digits_value(d.subrange(0, j)) * 10 + digit_value(
            d[j],
        ),
{
    assert(d.subrange(0, j + 1).drop_last() =~= d.subrange(0, j));
}

pub proof fn lemma_digits_value_grows(d: Seq<char>, j: int, k: int)
    requires
        0 <= j <= k <= d.len(),
    ensures
        digits_value(d.subrange(0, j)) <= digits_value(d.subrange(0, k)),
    decreases k - j,
{
    if j < k {
        lemma_digits_value_grows(d, j, k - 1);
        lemma_digits_value_step(d, k - 1);
    }
}

/// `str::parse` for an unsigned integer type whose largest value is `max`.
pub fn parse_unsigned_of(s: &Vec<char>, max: u32) -> (r: Option<u32>)
    ensures
        match r {
            Some(v) => parse_unsigned(s@, max as nat) == Some(v as nat),
            None => parse_unsigned(s@, max as nat) is None,
        },
{
    let len = s.len();
    let start: usize = if len > 0 && s[0] == '+' {
        1
    } else {
        0
    };
    let ghost d = if s@.len() > 0 && s@[0] == '+' {
        s@.subrange(1, s@.len() as int)
    } else {
        s@
    };
    assert(d =~= s@.subrange(start as int, len as int));
    if start == len {
        return None;
    }
    let mut acc: u64 = 0;
    let mut i: usize = start;
    while i < len
        invariant
            len == s@.len(),
            start <= i <= len,
            d == s@.subrange(start as int, len as int),
            d == (if s@.len() > 0 && s@[0] == '+' {
                s@.subrange(1, s@.len() as int)
            } else {
                s@
            }),
            d.len() > 0,
            acc <= max,
            all_digits(d.subrange(0, i - start)),
            acc as nat == digits_value(d.subrange(0, i - start)),
        decreases len - i,
    {
        let c = s[i];
        if !('0' <= c && c <= '9') {
            proof {
                assert(d[i - start] == c);
                assert(!is_digit(d[i - start]));
                assert(!all_digits(d));
                assert(parse_unsigned(s@, max as nat) is None);
            }
            return None;
        }
        let dv: u64 = ((c as u32) - ('0' as u32)) as u64;
        proof {
            lemma_digits_value_step(d, i - start);
        }
        let next: u64 = acc * 10 + dv;
        if next > max as u64 {
            proof {
                assert(d[i - start] == c);
                assert(digit_value(d[i - start]) == dv);
                lemma_digits_value_grows(d, i - start + 1, d.len() as int);
                assert(d.subrange(0, d.len() as int) =~= d);
                assert(digits_value(d) > max);
                assert(parse_unsigned(s@, max as nat) is None);
            }
            return None;
        }
        acc = next;
        i = i + 1;
        proof {
            assert forall|j: int| 0 <= j < i - start implies is_digit(
                #[trigger] d.subrange(0, i - start)[j],
            ) by {
                if j < i - start - 1 {
                    assert(d.subrange(0, i - start)[j] == d.subrange(0, i - start - 1)[j]);
                }
            }
        }
    }
    proof {
        assert(d.subrange(0, d.len() as int) =~= d);
    }
    Some(acc as u32)
}

/// Appends the decimal digits of `n`.
pub fn push_dec(out: &mut Vec<char>, n: u64)
    ensures
        final(out)@ == old(out)@ + dec(n as nat),
    decreases n,
{
    let ghost start = out@;
    if n >= 10 {
        push_dec(out, n / 10);
    }
    let d: u32 = (n % 10) as u32;
    let c: char = if d == 0 {
        '0'
    } else if d == 1 {
        '1'
    } else if d == 2 {
        '2'
    } else if d == 3 {
        '3'
    } else if d == 4 {
        '4'
    } else if d == 5 {
        '5'
    } else if d == 6 {
        '6'
    } else if d == 7 {
        '7'
    } else if d == 8 {
        '8'
    } else {
        '9'
    };
    assert(c == digit_char((n % 10) as nat));
    out.push(c);
    proof {
        if n >= 10 {
            assert(out@ =~= start + dec(n as nat));
        } else {
            assert(out@ =~= start + dec(n as nat));
        }
    }
}

pub proof fn lemma_dec_digits(n: nat)
    ensures
        dec(n).len() >= 1,
        all_digits(dec(n)),
        digits_value(dec(n)) == n,
        dec(n)[0] != '+',
    decreases n,
{
    if n >= 10 {
        lemma_dec_digits(n / 10);
        assert(dec(n).drop_last() =~= dec(n / 10));
        assert(dec(n)[0] == dec(n / 10)[0]);
        lemma_digit_char((n % 10) as nat);
        assert(dec(n).last() == digit_char((n % 10) as nat));
        assert(digits_value(dec(n)) == digits_value(dec(n / 10)) * 10 + (n % 10));
    } else {
        lemma_digit_char(n);
        assert(dec(n).drop_last() =~= Seq::<char>::empty());
        assert(digits_value(dec(n)) == digits_value(dec(n).drop_last()) * 10 + digit_value(
            dec(n).last(),
        ));
    }
}

pub proof fn lemma_digit_char(d: nat)
    requires
        d < 10,
    ensures
        is_digit(digit_char(d)),
        digit_value(digit_char(d)) == d,
        digit_char(d) != '+',
{
    assert(((d + ('0' as u32)) as u32) as char as u32 == d + 48);
}

/// Parsing what `dec` prints gives back the number.
pub proof fn lemma_parse_dec(n: nat, max: nat)
    requires
        n <= max,
    ensures
        parse_unsigned(dec(n), max) == Some(n),
{
    lemma_dec_digits(n);
}


/// Whether `pat` occurs in `s` at index `k`.
pub open spec fn occurs_at(s: Seq<char>, pat: Seq<char>, k: int) -> bool {
    0 <= k && k + pat.len() <= s.len() && s.subrange(k, k + pat.len()) == pat
}

/// Index of the first occurrence of `pat` at or after `i`, or `s.len()`.
pub open spec fn find_str_from(s: Seq<char>, pat: Seq<char>, i: int) -> int
    decreases s.len() - i,
{
    if i < 0 || i >= s.len() {
        s.len() as int
    } else if occurs_at(s, pat, i) {
        i
    } else {
        find_str_from(s, pat, i + 1)
    }
}

pub proof fn lemma_find_str(s: Seq<char>, pat: Seq<char>, i: int)
    requires
        0 <= i <= s.len(),
    ensures
        i <= find_str_from(s, pat, i) <= s.len(),
        forall|j: int| i <= j < find_str_from(s, pat, i) ==> !occurs_at(s, pat, j),
        find_str_from(s, pat, i) < s.len() ==> occurs_at(s, pat, find_str_from(s, pat, i)),
    decreases s.len() - i,
{
    if i < s.len() && !occurs_at(s, pat, i) {
        lemma_find_str(s, pat, i + 1);
    }
}

/// `s.split_once(pat)` for a non-empty string pattern.
pub open spec fn split_once_str(s: Seq<char>, pat: Seq<char>) -> Option<(Seq<char>, Seq<char>)> {
    let k = find_str_from(s, pat, 0);
    if k >= s.len() {
        None
    } else {
        Some((s.subrange(0, k), s.subrange(k + pat.len(), s.len() as int)))
    }
}

fn occurs_at_exec(s: &Vec<char>, pat: &Vec<char>, k: usize) -> (b: bool)
    requires
        k <= s@.len(),
    ensures
        b == occurs_at(s@, pat@, k as int),
{
    if pat.len() > s.len() - k {
        return false;
    }
    let mut j: usize = 0;
    while j < pat.len()
        invariant
            k + pat@.len() <= s@.len(),
            s@.len() == s.len(),
            j <= pat@.len(),
            forall|m: int| 0 <= m < j ==> s@[k + m] == pat@[m],
        decreases pat@.len() - j,
    {
        if s[k + j] != pat[j] {
            proof {
                assert(s@.subrange(k as int, k + pat@.len())[j as int] != pat@[j as int]);
            }
            return false;
        }
        j = j + 1;
    }
    proof {
        assert(s@.subrange(k as int, k + pat@.len()) =~= pat@);
    }
    true
}

/// `s.split_once(pat)` for a non-empty string pattern.
pub fn split_once_str_of(s: &Vec<char>, pat: &str) -> (r: Option<(Vec<char>, Vec<char>)>)
    requires
        pat@.len() > 0,
    ensures
        match r {
            Some((a, b)) => split_once_str(s@, pat@) == Some((a@, b@)),
            None => split_once_str(s@, pat@) is None,
        },
{
    let pc = chars_of(pat);
    let mut k: usize = 0;
    while k < s.len() && !occurs_at_exec(s, &pc, k)
        invariant
            pc@ == pat@,
            k <= s@.len(),
            forall|j: int| 0 <= j < k ==> !occurs_at(s@, pat@, j),
        decreases s@.len() - k,
    {
        k = k + 1;
    }
    proof {
        lemma_find_str(s@, pat@, 0);
        if find_str_from(s@, pat@, 0) < k {
            assert(!occurs_at(s@, pat@, find_str_from(s@, pat@, 0)));
        }
        if k < find_str_from(s@, pat@, 0) {
            assert(!occurs_at(s@, pat@, k as int));
        }
    }
    if k >= s.len() {
        None
    } else {
        Some((slice_of(s, 0, k), slice_of(s, k + pc.len(), s.len())))
    }
}


/// `b[a..e]` as a new vector.
pub fn byte_range(b: &Vec<u8>, a: usize, e: usize) -> (r: Vec<u8>)
    requires
        a <= e <= b@.len(),
    ensures
        r@ == b@.subrange(a as int, e as int),
{
    let mut r: Vec<u8> = Vec::new();
    let mut i: usize = a;
    while i < e
        invariant
            a <= i <= e <= b@.len(),
            r@ == b@.subrange(a as int, i as int),
        decreases e - i,
    {
        r.push(b[i]);
        i = i + 1;
        proof {
            assert(r@ =~= b@.subrange(a as int, i as int));
        }
    }
    r
}


/// The items of `s.split_whitespace()`: the maximal runs without whitespace.
pub open spec fn ws_tokens_from(s: Seq<char>, i: int) -> Seq<Seq<char>>
    decreases s.len() + 1 - i,
{
    if i < 0 || i >= s.len() {
        seq![]
    } else {
        let a = find_nonws_from(s, i);
        if a >= s.len() {
            seq![]
        } else {
            proof {
                lemma_find_nonws(s, i);
                lemma_find_ws(s, a);
            }
            let b = find_ws_from(s, a);
            seq![s.subrange(a, b)] + ws_tokens_from(s, b + 1)
        }
    }
}

pub open spec fn ws_tokens(s: Seq<char>) -> Seq<Seq<char>> {
    ws_tokens_from(s, 0)
}

/// The items joined with `sep`.
pub open spec fn join_with(ls: Seq<Seq<char>>, sep: char) -> Seq<char>
    decreases ls.len(),
{
    if ls.len() == 0 {
        seq![]
    } else if ls.len() == 1 {
        ls[0]
    } else {
        join_with(ls.drop_last(), sep) + seq![sep] + ls.last()
    }
}

/// `s.split_whitespace()`.
pub fn ws_tokens_of(s: &Vec<char>) -> (r: Vec<Vec<char>>)
    ensures
        seqs_view(r@) == ws_tokens(s@),
{
    let mut r: Vec<Vec<char>> = Vec::new();
    let mut i: usize = 0;
    let n = s.len();
    while i < n
        invariant
            n == s@.len(),
            i <= n,
            seqs_view(r@) + ws_tokens_from(s@, i as int) == ws_tokens(s@),
        decreases n - i,
    {
        let ghost before = seqs_view(r@);
        let a = find_nonws(s, i);
        proof {
            lemma_find_nonws(s@, i as int);
        }
        if a >= n {
            proof {
                assert(ws_tokens_from(s@, n as int) =~= Seq::<Seq<char>>::empty());
            }
            i = n;
        } else {
            let b = find_ws(s, a);
            proof {
                lemma_find_ws(s@, a as int);
            }
            let piece = slice_of(s, a, b);
            r.push(piece);
            proof {
                assert(seqs_view(r@) =~= before.push(piece@));
                assert(seqs_view(r@) + ws_tokens_from(s@, b + 1) =~= before + ws_tokens_from(
                    s@,
                    i as int,
                ));
                if b >= n {
                    assert(ws_tokens_from(s@, b + 1) =~= ws_tokens_from(s@, n as int));
                }
            }
            i = if b < n {
                b + 1
            } else {
                n
            };
        }
    }
    proof {
        assert(seqs_view(r@) + ws_tokens_from(s@, i as int) =~= seqs_view(r@));
    }
    r
}

/// The items joined with `sep`.
pub fn join_with_of(ls: &Vec<Vec<char>>, sep: char) -> (r: Vec<char>)
    ensures
        r@ == join_with(seqs_view(ls@), sep),
{
    let ghost lv = seqs_view(ls@);
    let mut out: Vec<char> = Vec::new();
    if ls.len() == 0 {
        return out;
    }
    push_all(&mut out, &ls[0]);
    proof {
        assert(lv[0] == ls@[0]@);
        assert(lv.take(1).drop_last() =~= Seq::<Seq<char>>::empty());
        assert(out@ =~= join_with(lv.take(1), sep));
    }
    let mut i: usize = 1;
    while i < ls.len()
        invariant
            lv == seqs_view(ls@),
            1 <= i <= ls@.len(),
            out@ == join_with(lv.take(i as int), sep),
        decreases ls@.len() - i,
    {
        out.push(sep);
        push_all(&mut out, &ls[i]);
        proof {
            assert(lv[i as int] == ls@[i as int]@);
            assert(lv.take(i + 1).drop_last() =~= lv.take(i as int));
            assert(lv.take(i + 1).last() == lv[i as int]);
            assert(out@ =~= join_with(lv.take(i + 1), sep));
        }
        i = i + 1;
    }
    proof {
        assert(lv.take(ls@.len() as int) =~= lv);
    }
    out
}


/// Index of the first occurrence of `pat` at or after `i`.
pub fn find_str(s: &Vec<char>, pat: &Vec<char>, i: usize) -> (k: usize)
    requires
        i <= s@.len(),
    ensures
        k == find_str_from(s@, pat@, i as int),
{
    let mut k: usize = i;
    while k < s.len() && !occurs_at_exec(s, pat, k)
        invariant
            i <= k <= s@.len(),
            forall|j: int| i <= j < k ==> !occurs_at(s@, pat@, j),
        decreases s@.len() - k,
    {
        k = k + 1;
    }
    proof {
        lemma_find_str(s@, pat@, i as int);
        let f = find_str_from(s@, pat@, i as int);
        if f < k {
            assert(!occurs_at(s@, pat@, f));
        }
        if k < f {
            assert(!occurs_at(s@, pat@, k as int));
        }
    }
    k
}

/// `s.contains(pat)`.
pub open spec fn contains_str(s: Seq<char>, pat: Seq<char>) -> bool {
    find_str_from(s, pat, 0) < s.len()
}

/// How many non-overlapping occurrences of `pat` start at or after `i`,
/// counted from the left, as `str::matches(pat).count()` does.
pub open spec fn count_str_from(s: Seq<char>, pat: Seq<char>, i: int) -> nat
    decreases s.len() - i,
{
    if pat.len() == 0 || i < 0 || i >= s.len() {
        0
    } else {
        let k = find_str_from(s, pat, i);
        if k >= s.len() {
            0
        } else {
            proof {
                lemma_find_str(s, pat, i);
            }
            1 + count_str_from(s, pat, k + pat.len())
        }
    }
}

/// `s.matches(pat).count()` for a non-empty pattern.
pub fn count_str(s: &Vec<char>, pat: &Vec<char>) -> (n: usize)
    requires
        pat@.len() > 0,
    ensures
        n == count_str_from(s@, pat@, 0),
{
    let mut n: usize = 0;
    let mut i: usize = 0;
    while i < s.len()
        invariant
            pat@.len() > 0,
            i <= s@.len() + pat@.len(),
            n <= i,
            n + count_str_from(s@, pat@, i as int) == count_str_from(s@, pat@, 0),
        decreases s@.len() + pat@.len() - i,
    {
        let k = find_str(s, pat, i);
        proof {
            lemma_find_str(s@, pat@, i as int);
        }
        if k >= s.len() {
            proof {
                assert(count_str_from(s@, pat@, s@.len() as int) == 0);
            }
            i = s.len();
        } else {
            n = n + 1;
            i = k + pat.len();
        }
    }
    proof {
        assert(count_str_from(s@, pat@, i as int) == 0);
    }
    n
}

/// Index of the first character at or after `i` that is not `c`.
pub open spec fn skip_char_from(s: Seq<char>, c: char, i: int) -> int
    decreases s.len() - i,
{
    if i < 0 || i >= s.len() {
        s.len() as int
    } else if s[i] != c {
        i
    } else {
        skip_char_from(s, c, i + 1)
    }
}

/// `s.trim_start_matches(c)`.
pub open spec fn trim_start_char(s: Seq<char>, c: char) -> Seq<char> {
    s.subrange(skip_char_from(s, c, 0), s.len() as int)
}

pub proof fn lemma_skip_char(s: Seq<char>, c: char, i: int)
    requires
        0 <= i <= s.len(),
    ensures
        i <= skip_char_from(s, c, i) <= s.len(),
    decreases s.len() - i,
{
    if i < s.len() && s[i] == c {
        lemma_skip_char(s, c, i + 1);
    }
}

/// `s.trim_start_matches(c)`.
pub fn trim_start_char_of(s: &Vec<char>, c: char) -> (r: Vec<char>)
    ensures
        r@ == trim_start_char(s@, c),
{
    let mut i: usize = 0;
    while i < s.len() && s[i] == c
        invariant
            i <= s@.len(),
            skip_char_from(s@, c, 0) == skip_char_from(s@, c, i as int),
        decreases s@.len() - i,
    {
        i = i + 1;
    }
    slice_of(s, i, s.len())
}

/// Whether some line of `s`, trimmed, is `t`.
pub open spec fn has_trimmed_line(s: Seq<char>, t: Seq<char>) -> bool {
    exists|j: int| 0 <= j < lines(s).len() && trim(#[trigger] lines(s)[j]) == t
}

/// `s.lines().any(|line| line.trim() == t)`.
pub fn has_trimmed_line_of(s: &Vec<char>, t: &str) -> (b: bool)
    ensures
        b == has_trimmed_line(s@, t@),
{
    let ls = split_lines(s);
    let tc = chars_of(t);
    let mut i: usize = 0;
    while i < ls.len()
        invariant
            seqs_view(ls@) == lines(s@),
            tc@ == t@,
            i <= ls@.len(),
            forall|j: int| 0 <= j < i ==> trim(#[trigger] lines(s@)[j]) != t@,
        decreases ls@.len() - i,
    {
        proof {
            assert(lines(s@)[i as int] == ls@[i as int]@);
        }
        if eq_chars(&trim_chars(&ls[i]), &tc) {
            return true;
        }
        i = i + 1;
    }
    false
}
} // verus!
