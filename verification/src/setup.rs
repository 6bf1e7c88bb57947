//! What `init` writes into a repository: the generated-file rule, the
//! managed block of each Git hook, the managed ignore rule, and the CI
//! workflow, each merged into what is already there without clobbering it.

use vstd::prelude::*;
use crate::error::{error_of, with_file, ErrorCode, ErrorView, GlossError};
use crate::format::result_view;
use crate::text::{
    chars_of, contains_str, count_str, count_str_from, dec, find_str, find_str_from,
    has_trimmed_line, has_trimmed_line_of, push_all, push_dec, push_str, slice_of, string_of,
    strip_prefix, strip_prefix_of, trim_start_char, trim_start_char_of, lemma_find_str, occurs_at,
};

verus! {

/// The `.gitattributes` rule that marks glosses as generated.
pub open spec fn attribute_rule() -> Seq<char> {
    "**/.gloss/*.gloss linguist-generated=true"@
}

/// `contents` with `line` appended as a line of its own, after a newline
/// when the text does not end with one.
pub open spec fn append_line(contents: Seq<char>, line: Seq<char>) -> Seq<char> {
    let sep = if contents.len() > 0 && contents.last() != '\n' {
        "\n"@
    } else {
        Seq::<char>::empty()
    };
    contents + sep + line + "\n"@
}

fn push_separator(out: &mut Vec<char>)
    ensures
        final(out)@ == old(out)@ + (if old(out)@.len() > 0 && old(out)@.last() != '\n' {
            "\n"@
        } else {
            Seq::<char>::empty()
        }),
{
    if out.len() > 0 && out[out.len() - 1] != '\n' {
        push_str(out, "\n");
    } else {
        proof {
            assert(out@ =~= out@ + Seq::<char>::empty());
        }
    }
}

/// `.gitattributes` with the generated-file rule added, or `None` when a
/// line already is that rule.
pub open spec fn with_attribute_rule_spec(contents: Seq<char>) -> Option<Seq<char>> {
    if has_trimmed_line(contents, attribute_rule()) {
        None
    } else {
        Some(append_line(contents, attribute_rule()))
    }
}

pub fn with_attribute_rule(contents: &str) -> (r: Option<String>)
    ensures
        match r {
            Some(s) => with_attribute_rule_spec(contents@) == Some(s@),
            None => with_attribute_rule_spec(contents@) is None,
        },
{
    let rule = "**/.gloss/*.gloss linguist-generated=true";
    let mut out = chars_of(contents);
    if has_trimmed_line_of(&out, rule) {
        return None;
    }
    push_separator(&mut out);
    push_str(&mut out, rule);
    push_str(&mut out, "\n");
    Some(string_of(&out))
}

/// The markers around the block that Gloss manages in a shared file.
pub open spec fn block_start() -> Seq<char> {
    "# gloss:start"@
}

pub open spec fn block_end() -> Seq<char> {
    "# gloss:end"@
}

/// The text without the first managed block (from its start marker to the
/// first end marker after it, and the newlines that follow), when it has one.
pub open spec fn without_block(s: Seq<char>) -> Seq<char> {
    let a = find_str_from(s, block_start(), 0);
    if a >= s.len() {
        s
    } else {
        let b = find_str_from(s, block_end(), a);
        if b >= s.len() {
            s
        } else {
            s.subrange(0, a) + trim_start_char(
                s.subrange(b + block_end().len(), s.len() as int),
                '\n',
            )
        }
    }
}

/// A Git hook with its managed block (re)written at the end: the existing
/// hook, or a bare `sh` script, without its old block, ending in a newline,
/// then the block that runs `command`.
pub open spec fn hook_script_spec(existing: Option<Seq<char>>, command: Seq<char>) -> Seq<char> {
    let base = match existing {
        Some(e) => e,
        None => "#!/bin/sh\n"@,
    };
    let cleaned = without_block(base);
    let ended = if cleaned.len() > 0 && cleaned.last() == '\n' {
        cleaned
    } else {
        cleaned + "\n"@
    };
    ended + block_start() + "\n"@ + command + "\n"@ + block_end() + "\n"@
}

pub fn hook_script(existing: Option<&str>, command: &str) -> (s: String)
    ensures
        s@ == hook_script_spec(
            match existing {
                Some(e) => Some(e@),
                None => None,
            },
            command@,
        ),
{
    let base = match existing {
        Some(e) => chars_of(e),
        None => chars_of("#!/bin/sh\n"),
    };
    let start = chars_of("# gloss:start");
    let end = chars_of("# gloss:end");
    let a = find_str(&base, &start, 0);
    proof {
        lemma_find_str(base@, start@, 0);
    }
    let mut out: Vec<char> = if a >= base.len() {
        base
    } else {
        let b = find_str(&base, &end, a);
        proof {
            lemma_find_str(base@, end@, a as int);
            reveal_strlit("# gloss:end");
        }
        if b >= base.len() {
            base
        } else {
            let mut kept = slice_of(&base, 0, a);
            let rest = slice_of(&base, b + end.len(), base.len());
            let trimmed = trim_start_char_of(&rest, '\n');
            push_all(&mut kept, &trimmed);
            kept
        }
    };
    if !(out.len() > 0 && out[out.len() - 1] == '\n') {
        push_str(&mut out, "\n");
    }
    push_str(&mut out, "# gloss:start");
    push_str(&mut out, "\n");
    push_str(&mut out, command);
    push_str(&mut out, "\n");
    push_str(&mut out, "# gloss:end");
    push_str(&mut out, "\n");
    string_of(&out)
}

/// The Git hooks that Gloss installs, with the command each one runs.
pub fn managed_hooks() -> (r: Vec<(&'static str, &'static str)>)
    ensures
        r@.len() == 3,
        r@[0].0@ == "pre-commit"@ && r@[0].1@ == "gloss lint --staged"@,
        r@[1].0@ == "post-commit"@ && r@[1].1@ == "gloss __post-commit"@,
        r@[2].0@ == "post-rewrite"@ && r@[2].1@ == "gloss __post-rewrite \"$@\""@,
{
    let mut r: Vec<(&'static str, &'static str)> = Vec::new();
    r.push(("pre-commit", "gloss lint --staged"));
    r.push(("post-commit", "gloss __post-commit"));
    r.push(("post-rewrite", "gloss __post-rewrite \"$@\""));
    r
}

/// The rule in `.ignore` that hides glosses from search tools.
pub open spec fn ignore_rule() -> Seq<char> {
    "**/.gloss/*.gloss"@
}

/// The managed block of `.ignore`.
pub open spec fn ignore_block() -> Seq<char> {
    block_start() + "\n"@ + ignore_rule() + "\n"@ + block_end()
}

/// The error for a managed block that someone edited.
pub open spec fn edited_block_error() -> ErrorView {
    with_file(
        error_of(ErrorCode::AmbiguousRepair, "the managed Gloss block in .ignore was edited"@),
        ".ignore"@,
    )
}

/// `.ignore` with the managed rule: kept as it is when it holds exactly one
/// intact managed block or the rule on a line of its own, refused when it
/// holds an edited block, else with the block appended.
pub open spec fn ignore_contents_spec(existing: Seq<char>) -> Result<Seq<char>, ErrorView> {
    if contains_str(existing, block_start()) || contains_str(existing, block_end()) {
        if !contains_str(existing, ignore_block()) || count_str_from(existing, block_start(), 0)
            != 1 || count_str_from(existing, block_end(), 0) != 1 {
            Err(edited_block_error())
        } else {
            Ok(existing)
        }
    } else if !has_trimmed_line(existing, ignore_rule()) {
        Ok(append_line(existing, ignore_block()))
    } else {
        Ok(existing)
    }
}

pub fn ignore_contents(existing: &str) -> (r: Result<String, GlossError>)
    ensures
        match r {
            Ok(s) => ignore_contents_spec(existing@) == Ok::<Seq<char>, ErrorView>(s@),
            Err(e) => ignore_contents_spec(existing@) == Err::<Seq<char>, ErrorView>(e@),
        },
{
    let text = chars_of(existing);
    let start = chars_of("# gloss:start");
    let end = chars_of("# gloss:end");
    let mut block = chars_of("# gloss:start");
    push_str(&mut block, "\n");
    push_str(&mut block, "**/.gloss/*.gloss");
    push_str(&mut block, "\n");
    push_str(&mut block, "# gloss:end");
    proof {
        reveal_strlit("# gloss:start");
        reveal_strlit("# gloss:end");
    }
    if find_str(&text, &start, 0) < text.len() || find_str(&text, &end, 0) < text.len() {
        if !(find_str(&text, &block, 0) < text.len()) || count_str(&text, &start) != 1 || count_str(
            &text,
            &end,
        ) != 1 {
            return Err(
                GlossError::new(
                    ErrorCode::AmbiguousRepair,
                    "the managed Gloss block in .ignore was edited".to_owned(),
                ).file(".ignore"),
            );
        }
        return Ok(string_of(&text));
    }
    if !has_trimmed_line_of(&text, "**/.gloss/*.gloss") {
        let mut out = text;
        push_separator(&mut out);
        push_all(&mut out, &block);
        push_str(&mut out, "\n");
        return Ok(string_of(&out));
    }
    Ok(string_of(&text))
}

/// The first line of the managed CI workflow, by which Gloss knows its own.
pub open spec fn workflow_marker() -> Seq<char> {
    "# Managed by `gloss init`."@
}

/// The CI workflow that installs Gloss at `version` and lints pull requests.
pub open spec fn workflow_text_spec(version: Seq<char>) -> Seq<char> {
    "# Managed by `gloss init`. Re-run it to update this workflow.\nname: Gloss\n\non:\n  pull_request:\n\npermissions:\n  contents: read\n\njobs:\n  lint:\n    name: Validate gloss metadata\n    runs-on: ubuntu-latest\n    steps:\n      - uses: actions/checkout@v4\n        with:\n          fetch-depth: 0\n      - uses: dtolnay/rust-toolchain@stable\n      - name: Install Gloss\n        run: cargo install --git https://github.com/ArchAstro/gloss --tag v"@
        + version
        + " --locked gloss\n      - name: Validate changed files\n        env:\n          GLOSS_BASE: ${{ github.event.pull_request.base.sha }}\n        run: gloss lint\n"@
}

pub fn workflow_text(version: &str) -> (s: String)
    ensures
        s@ == workflow_text_spec(version@),
{
    let mut out = chars_of(
        "# Managed by `gloss init`. Re-run it to update this workflow.\nname: Gloss\n\non:\n  pull_request:\n\npermissions:\n  contents: read\n\njobs:\n  lint:\n    name: Validate gloss metadata\n    runs-on: ubuntu-latest\n    steps:\n      - uses: actions/checkout@v4\n        with:\n          fetch-depth: 0\n      - uses: dtolnay/rust-toolchain@stable\n      - name: Install Gloss\n        run: cargo install --git https://github.com/ArchAstro/gloss --tag v",
    );
    push_str(&mut out, version);
    push_str(
        &mut out,
        " --locked gloss\n      - name: Validate changed files\n        env:\n          GLOSS_BASE: ${{ github.event.pull_request.base.sha }}\n        run: gloss lint\n",
    );
    string_of(&out)
}

/// Where the workflow lives, relative to the repository root.
pub open spec fn workflow_path() -> Seq<char> {
    ".github/workflows/gloss.yml"@
}

/// Whether to write the workflow: not when the file already holds it; an
/// error when the file exists without the Gloss marker.
pub open spec fn workflow_action_spec(existing: Option<Seq<char>>, workflow: Seq<char>) -> Result<
    bool,
    ErrorView,
> {
    match existing {
        None => Ok(true),
        Some(e) => if e == workflow {
            Ok(false)
        } else if strip_prefix(e, workflow_marker()) is None {
            Err(
                with_file(
                    error_of(
                        ErrorCode::AmbiguousRepair,
                        "refusing to overwrite a non-Gloss workflow at .github/workflows/gloss.yml"@,
                    ),
                    workflow_path(),
                ),
            )
        } else {
            Ok(true)
        },
    }
}

pub fn workflow_action(existing: Option<&str>, workflow: &str) -> (r: Result<bool, GlossError>)
    ensures
        result_view(r) == workflow_action_spec(
            match existing {
                Some(e) => Some(e@),
                None => None,
            },
            workflow@,
        ),
{
    match existing {
        None => Ok(true),
        Some(e) => {
            let ec = chars_of(e);
            if crate::text::eq_chars(&ec, &chars_of(workflow)) {
                Ok(false)
            } else if strip_prefix_of(&ec, "# Managed by `gloss init`.").is_none() {
                Err(
                    GlossError::new(
                        ErrorCode::AmbiguousRepair,
                        "refusing to overwrite a non-Gloss workflow at .github/workflows/gloss.yml".to_owned(),
                    ).file(".github/workflows/gloss.yml"),
                )
            } else {
                Ok(true)
            }
        },
    }
}


proof fn lemma_no_occurrence(s: Seq<char>, pat: Seq<char>, j: int)
    requires
        !contains_str(s, pat),
        pat.len() > 0,
        0 <= j,
    ensures
        !occurs_at(s, pat, j),
{
    lemma_find_str(s, pat, 0);
}

/// Installing a hook twice gives the same script as installing it once,
/// whenever the hook without its managed block holds no start marker (as
/// when it held no block, or one block) and the command does not hold the
/// end marker.
pub proof fn lemma_hook_script_idempotent(existing: Option<Seq<char>>, command: Seq<char>)
    requires
        !contains_str(
            without_block(
                match existing {
                    Some(e) => e,
                    None => "#!/bin/sh\n"@,
                },
            ),
            block_start(),
        ),
        !contains_str(command, block_end()),
    ensures
        hook_script_spec(Some(hook_script_spec(existing, command)), command) == hook_script_spec(
            existing,
            command,
        ),
{
    let base = match existing {
        Some(e) => e,
        None => "#!/bin/sh\n"@,
    };
    let c = without_block(base);
    assert(without_block(c) == c);
    assert(hook_script_spec(existing, command) == hook_script_spec(Some(c), command));
    lemma_hook_script_fresh(Some(c), command);
}

/// The same, for a hook that holds no managed block.
proof fn lemma_hook_script_fresh(existing: Option<Seq<char>>, command: Seq<char>)
    requires
        !contains_str(
            match existing {
                Some(e) => e,
                None => "#!/bin/sh\n"@,
            },
            block_start(),
        ),
        !contains_str(command, block_end()),
    ensures
        hook_script_spec(Some(hook_script_spec(existing, command)), command) == hook_script_spec(
            existing,
            command,
        ),
{
    reveal_strlit("# gloss:start");
    reveal_strlit("# gloss:end");
    reveal_strlit("\n");
    reveal_strlit("#!/bin/sh\n");
    let base = match existing {
        Some(e) => e,
        None => "#!/bin/sh\n"@,
    };
    let st = block_start();
    let en = block_end();
    lemma_find_str(base, st, 0);
    assert(without_block(base) == base);
    let ended = if base.len() > 0 && base.last() == '\n' {
        base
    } else {
        base + "\n"@
    };
    let h = hook_script_spec(existing, command);
    let a = ended.len() as int;
    let b = a + 13 + 1 + command.len() + 1;
    assert(h =~= ended + st + seq!['\n'] + command + seq!['\n'] + en + seq!['\n']);
    assert(h.len() == b + 12);
    assert(ended.last() == '\n');
    assert(h[a - 1] == '\n');
    // the first start marker is the one just written
    assert(h.subrange(a, a + 13) =~= st);
    assert forall|j: int| 0 <= j < a implies !occurs_at(h, st, j) by {
        if occurs_at(h, st, j) {
            if j + 13 <= a - 1 || (j + 13 <= a && ended == base) {
                assert(h.subrange(j, j + 13) =~= base.subrange(j, j + 13));
                assert(occurs_at(base, st, j));
                lemma_no_occurrence(base, st, j);
            } else {
                assert(h.subrange(j, j + 13)[a - 1 - j] == h[a - 1]);
                assert(st[a - 1 - j] != '\n');
            }
        }
    }
    crate::text::lemma_find_str(h, st, 0);
    assert(find_str_from(h, st, 0) == a) by {
        let f = find_str_from(h, st, 0);
        if f < a {
            assert(occurs_at(h, st, f));
        }
        if f > a {
            assert(!occurs_at(h, st, a));
        }
    }
    // the first end marker from there is the one just written
    assert(h.subrange(b, b + 11) =~= en);
    assert forall|j: int| a <= j < b implies !occurs_at(h, en, j) by {
        if occurs_at(h, en, j) {
            assert(h.subrange(j, j + 11)[0] == h[j]);
            assert(h[j] == '#');
            if j == a {
                assert(h.subrange(j, j + 11)[8] == st[8]);
            } else if j < a + 13 {
                assert(h[j] == st[j - a]);
            } else if j == a + 13 {
                assert(h[j] == '\n');
            } else if j < a + 14 + command.len() {
                let m = j - a - 14;
                if j + 11 <= a + 14 + command.len() {
                    assert(h.subrange(j, j + 11) =~= command.subrange(m, m + 11));
                    assert(occurs_at(command, en, m));
                    lemma_no_occurrence(command, en, m);
                } else {
                    let k = a + 14 + command.len();
                    assert(h[k] == '\n');
                    assert(h.subrange(j, j + 11)[k - j] == h[k]);
                }
            } else {
                assert(h[j] == '\n');
            }
        }
    }
    crate::text::lemma_find_str(h, en, a);
    assert(find_str_from(h, en, a) == b) by {
        let f = find_str_from(h, en, a);
        if f < b {
            assert(occurs_at(h, en, f));
        }
        if f > b {
            assert(!occurs_at(h, en, b));
        }
    }
    let rest = h.subrange(b + 11, h.len() as int);
    assert(rest =~= seq!['\n']);
    crate::text::lemma_skip_char(rest, '\n', 0);
    assert(crate::text::skip_char_from(rest, '\n', 0) == 1) by {
        assert(crate::text::skip_char_from(rest, '\n', 1) == 1);
    }
    assert(trim_start_char(rest, '\n') =~= Seq::<char>::empty());
    assert(without_block(h) =~= ended);
}

proof fn lemma_lines_after(p: Seq<char>, t: Seq<char>, i: int)
    requires
        p.len() == 0 || p.last() == '\n',
        0 <= i <= p.len(),
    ensures
        crate::text::lines_from(p + t, i) == crate::text::lines_from(p, i) + crate::text::lines(t),
    decreases p.len() - i,
{
    let s = p + t;
    if i == p.len() {
        crate::round_trip::lemma_lines_shift(p, t, 0);
        assert(crate::text::lines_from(p, i) =~= Seq::<Seq<char>>::empty());
        assert(crate::text::lines_from(p, i) + crate::text::lines(t) =~= crate::text::lines(t));
    } else {
        crate::text::lemma_find_char(p, '\n', i);
        let k = crate::text::find_char_from(p, '\n', i);
        assert(k < p.len()) by {
            if k >= p.len() {
                assert(p[p.len() - 1] == '\n');
            }
        }
        assert forall|j: int| i <= j < k implies s[j] != '\n' by {
            assert(s[j] == p[j]);
        }
        assert(s[k] == p[k]);
        crate::text::lemma_find_char_is(s, '\n', i, k);
        assert(s.subrange(i, k) =~= p.subrange(i, k));
        lemma_lines_after(p, t, k + 1);
        assert(crate::text::lines_from(p + t, i) =~= crate::text::lines_from(p, i)
            + crate::text::lines(t));
    }
}

/// A pattern without newlines that `existing` lacks does not start within
/// `p` (`existing` and, when it lacks one, a final newline) in `p + t`.
proof fn lemma_no_match_in_prefix(existing: Seq<char>, p: Seq<char>, t: Seq<char>, pat: Seq<char>)
    requires
        !contains_str(existing, pat),
        pat.len() > 0,
        forall|k: int| 0 <= k < pat.len() ==> pat[k] != '\n',
        p.len() == existing.len() || p.len() == existing.len() + 1,
        p.subrange(0, existing.len() as int) == existing,
        p.len() > 0 ==> p.last() == '\n',
    ensures
        forall|j: int| 0 <= j < p.len() ==> !occurs_at(p + t, pat, j),
{
    let u = p + t;
    crate::text::lemma_find_str(existing, pat, 0);
    assert forall|j: int| 0 <= j < p.len() implies !occurs_at(u, pat, j) by {
        if occurs_at(u, pat, j) {
            if j + pat.len() <= existing.len() {
                assert(u.subrange(j, j + pat.len()) =~= existing.subrange(j, j + pat.len()));
                assert(occurs_at(existing, pat, j));
            } else {
                let m = p.len() - 1 - j;
                assert(u.subrange(j, j + pat.len())[m] == u[j + m]);
                assert(u[p.len() - 1] == p.last());
                assert(pat[m] == '\n');
            }
        }
    }
}

/// The first occurrence of `pat` at or after `i` is at `k`.
proof fn lemma_first_at(s: Seq<char>, pat: Seq<char>, i: int, k: int)
    requires
        0 <= i <= k,
        occurs_at(s, pat, k),
        forall|j: int| i <= j < k ==> !occurs_at(s, pat, j),
    ensures
        find_str_from(s, pat, i) == k,
{
    crate::text::lemma_find_str(s, pat, i);
    let f = find_str_from(s, pat, i);
    if f < k {
        assert(occurs_at(s, pat, f));
    }
}

/// Nothing matches `pat` at or after `i`.
proof fn lemma_none_from(s: Seq<char>, pat: Seq<char>, i: int)
    requires
        pat.len() > 0,
        0 <= i <= s.len(),
        forall|j: int| i <= j < s.len() ==> !occurs_at(s, pat, j),
    ensures
        count_str_from(s, pat, i) == 0,
{
    crate::text::lemma_find_str(s, pat, i);
}

/// Adding the managed ignore block once is enough: on the text it returns,
/// `ignore_contents` keeps that text as it is.
pub proof fn lemma_ignore_contents_idempotent(existing: Seq<char>)
    ensures
        ignore_contents_spec(existing) matches Ok(updated) ==> ignore_contents_spec(updated) == Ok::<
            Seq<char>,
            ErrorView,
        >(updated),
{
    reveal_strlit("# gloss:start");
    reveal_strlit("# gloss:end");
    reveal_strlit("**/.gloss/*.gloss");
    reveal_strlit("\n");
    let st = block_start();
    let en = block_end();
    if !(contains_str(existing, st) || contains_str(existing, en)) && !has_trimmed_line(
        existing,
        ignore_rule(),
    ) {
        let sep = if existing.len() > 0 && existing.last() != '\n' {
            "\n"@
        } else {
            Seq::<char>::empty()
        };
        let p = existing + sep;
        let t = ignore_block() + "\n"@;
        let u = p + t;
        assert(append_line(existing, ignore_block()) =~= u);
        let n = p.len() as int;
        assert(t =~= seq![
            '#', ' ', 'g', 'l', 'o', 's', 's', ':', 's', 't', 'a', 'r', 't', '\n',
            '*', '*', '/', '.', 'g', 'l', 'o', 's', 's', '/', '*', '.', 'g', 'l', 'o', 's', 's', '\n',
            '#', ' ', 'g', 'l', 'o', 's', 's', ':', 'e', 'n', 'd', '\n',
        ]);
        assert(u.len() == n + 44);
        assert(p.subrange(0, existing.len() as int) =~= existing);
        lemma_no_match_in_prefix(existing, p, t, st);
        lemma_no_match_in_prefix(existing, p, t, en);
        assert(forall|k: int| 0 <= k < t.len() ==> u[n + k] == t[k]);
        // the block sits right after the old text
        assert(u.subrange(n, n + 13) =~= st);
        assert(u.subrange(n, n + 43) =~= ignore_block());
        assert(u.subrange(n + 32, n + 43) =~= en);
        // the only `#` after the old text starts one of the two markers
        assert forall|j: int| n <= j < u.len() && u[j] == '#' implies j == n || j == n + 32 by {
            assert(t[j - n] == '#');
        }
        assert forall|j: int| 0 <= j && #[trigger] occurs_at(u, st, j) implies u[j] == '#' by {
            assert(u.subrange(j, j + 13)[0] == u[j]);
        }
        assert forall|j: int| 0 <= j && #[trigger] occurs_at(u, en, j) implies u[j] == '#' by {
            assert(u.subrange(j, j + 11)[0] == u[j]);
        }
        assert(!occurs_at(u, en, n)) by {
            assert(u.subrange(n, n + 11)[8] == u[n + 8]);
        }
        // one start marker
        lemma_first_at(u, st, 0, n);
        lemma_none_from(u, st, n + 13);
        assert(count_str_from(u, st, 0) == 1);
        // one end marker
        lemma_first_at(u, en, 0, n + 32);
        lemma_none_from(u, en, n + 43);
        assert(count_str_from(u, en, 0) == 1);
        // the intact block
        assert(occurs_at(u, ignore_block(), n));
        crate::text::lemma_find_str(u, ignore_block(), 0);
        assert(contains_str(u, ignore_block()));
        assert(contains_str(u, st));
    }
}

/// `.ignore`, `.gitattributes` and Git hooks keep what they held: the
/// managed rule is only ever added after it, and so is the managed block of
/// a hook that has none yet.
pub proof fn lemma_setup_keeps_existing_rules(existing: Seq<char>, command: Seq<char>)
    ensures
        ignore_contents_spec(existing) matches Ok(updated) ==> updated.len() >= existing.len()
            && updated.subrange(0, existing.len() as int) == existing,
        with_attribute_rule_spec(existing) matches Some(updated) ==> updated.len() >= existing.len()
            && updated.subrange(0, existing.len() as int) == existing,
        !contains_str(existing, block_start()) ==> ({
            let hook = hook_script_spec(Some(existing), command);
            hook.len() >= existing.len() && hook.subrange(0, existing.len() as int) == existing
        }),
{
    let sep = if existing.len() > 0 && existing.last() != '\n' {
        "\n"@
    } else {
        Seq::<char>::empty()
    };
    assert((existing + sep + ignore_block() + "\n"@).subrange(0, existing.len() as int) =~= existing);
    assert((existing + sep + attribute_rule() + "\n"@).subrange(0, existing.len() as int) =~= existing);
    assert(existing.subrange(0, existing.len() as int) =~= existing);
    if !contains_str(existing, block_start()) {
        assert(without_block(existing) == existing);
        let ended = if existing.len() > 0 && existing.last() == '\n' {
            existing
        } else {
            existing + "\n"@
        };
        let tail = block_start() + "\n"@ + command + "\n"@ + block_end() + "\n"@;
        assert(hook_script_spec(Some(existing), command) =~= ended + tail);
        assert((ended + tail).subrange(0, existing.len() as int) =~= existing);
    }
}

/// The workflow that `init` wrote is left as it is the next time.
pub proof fn lemma_workflow_written_once(version: Seq<char>)
    ensures
        workflow_action_spec(Some(workflow_text_spec(version)), workflow_text_spec(version)) == Ok::<
            bool,
            ErrorView,
        >(false),
{
}

/// Adding the generated-file rule once is enough: the result already has it.
pub proof fn lemma_attribute_rule_once(contents: Seq<char>)
    ensures
        with_attribute_rule_spec(contents) matches Some(updated) ==> with_attribute_rule_spec(
            updated,
        ) is None,
{
    reveal_strlit("**/.gloss/*.gloss linguist-generated=true");
    reveal_strlit("\n");
    if let Some(updated) = with_attribute_rule_spec(contents) {
        let rule = attribute_rule();
        let sep = if contents.len() > 0 && contents.last() != '\n' {
            "\n"@
        } else {
            Seq::<char>::empty()
        };
        let p = contents + sep;
        assert(updated =~= p + (rule + seq!['\n']));
        assert(p.len() == 0 || p.last() == '\n');
        lemma_lines_after(p, rule + seq!['\n'], 0);
        assert(crate::round_trip::line_ok(rule)) by {
            assert forall|j: int| 0 <= j < rule.len() implies rule[j] != '\n' by {}
        }
        crate::round_trip::lemma_lines_join(seq![rule]);
        assert(seq![rule].drop_last() =~= Seq::<Seq<char>>::empty());
        assert(crate::format::join_lines(seq![rule].drop_last()) =~= Seq::<char>::empty());
        assert(crate::format::join_lines(seq![rule]) =~= rule + seq!['\n']);
        let ls = crate::text::lines(updated);
        let n = crate::text::lines(p).len() as int;
        assert(ls[n] == rule);
        crate::text::lemma_find_nonws_is(rule, 0, 0);
        crate::text::lemma_trim_end_is(rule, rule.len() as int, rule.len() as int);
        assert(rule.subrange(0, rule.len() as int) =~= rule);
        assert(crate::text::trim(ls[n]) == rule);
        assert(has_trimmed_line(updated, rule));
    }
}
} // verus!
