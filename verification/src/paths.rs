//! Paths as `std::path::Path` reads them on Unix, over `/`-separated text,
//! and the mapping between a source file and its gloss file.

use vstd::prelude::*;
use crate::error::{error_of, invalid_in, with_file, ErrorCode, ErrorView, GlossError};
use crate::text::{
    chars_of, eq_str, find_char_from, lemma_find_char, lemma_find_char_is, push_all, push_str,
    seqs_view, split, split_from, split_on, string_of, strip_suffix,
};

verus! {

pub open spec fn is_absolute(p: Seq<char>) -> bool {
    p.len() > 0 && p[0] == '/'
}

/// Whether piece `j` of a path split at `/` is a component: non-empty, and
/// not `.` unless it opens the path.
pub open spec fn is_comp(ps: Seq<Seq<char>>, j: int) -> bool {
    ps[j].len() > 0 && (ps[j] != "."@ || j == 0)
}

/// Index of the last component before piece `j`, or -1.
pub open spec fn last_comp_before(ps: Seq<Seq<char>>, j: int) -> int
    decreases j,
{
    if j <= 0 || j > ps.len() {
        -1
    } else if is_comp(ps, j - 1) {
        j - 1
    } else {
        last_comp_before(ps, j - 1)
    }
}

pub proof fn lemma_last_comp(ps: Seq<Seq<char>>, j: int)
    requires
        0 <= j <= ps.len(),
    ensures
        -1 <= last_comp_before(ps, j) < j,
        last_comp_before(ps, j) >= 0 ==> is_comp(ps, last_comp_before(ps, j)),
        forall|k: int| last_comp_before(ps, j) < k < j ==> !is_comp(ps, k),
    decreases j,
{
    if j > 0 && !is_comp(ps, j - 1) {
        lemma_last_comp(ps, j - 1);
    }
}

/// The pieces joined with `/`.
pub open spec fn join_slash(ls: Seq<Seq<char>>) -> Seq<char>
    decreases ls.len(),
{
    if ls.len() == 0 {
        seq![]
    } else if ls.len() == 1 {
        ls[0]
    } else {
        join_slash(ls.drop_last()) + seq!['/'] + ls.last()
    }
}

/// `Path::file_name`: the last component when it is a name (not `.` or `..`).
pub open spec fn path_file_name(p: Seq<char>) -> Option<Seq<char>> {
    let ps = split(p, '/');
    let l = last_comp_before(ps, ps.len() as int);
    if l < 0 || ps[l] == "."@ || ps[l] == ".."@ {
        None
    } else {
        Some(ps[l])
    }
}

/// `Path::parent`: the path up to the component before the last one (`/`
/// for a component right after the root, the empty path for the first
/// component of a relative path); none for a path without components.
pub open spec fn path_parent(p: Seq<char>) -> Option<Seq<char>> {
    let ps = split(p, '/');
    let l = last_comp_before(ps, ps.len() as int);
    if l < 0 {
        None
    } else {
        let m = last_comp_before(ps, l);
        Some(
            if m >= 0 {
                join_slash(ps.take(m + 1))
            } else if is_absolute(p) {
                "/"@
            } else {
                seq![]
            },
        )
    }
}

/// `PathBuf::push` of a relative name: a `/` goes between unless the base is
/// empty or already ends with one.
pub open spec fn path_join(base: Seq<char>, name: Seq<char>) -> Seq<char> {
    if base.len() == 0 {
        name
    } else if base.last() == '/' {
        base + name
    } else {
        base + seq!['/'] + name
    }
}

/// The gloss file of a source file: `<dir>/.gloss/<name>.gloss`.
pub open spec fn gloss_path_spec(source: Seq<char>) -> Result<Seq<char>, ErrorView> {
    match path_file_name(source) {
        None => Err(
            with_file(
                error_of(ErrorCode::InvalidFormat, "source path has no file name"@),
                source,
            ),
        ),
        Some(name) => {
            let parent = match path_parent(source) {
                Some(p) => p,
                None => seq![],
            };
            Ok(path_join(path_join(parent, ".gloss"@), name + ".gloss"@))
        },
    }
}

/// The source file of a gloss file, which must sit in a `.gloss` directory
/// beside it and end in `.gloss`.
pub open spec fn source_path_spec(gloss: Seq<char>) -> Result<Seq<char>, ErrorView> {
    match path_parent(gloss) {
        None => Err(invalid_in(gloss, "gloss path has no parent"@)),
        Some(dir) => if path_file_name(dir) != Some(".gloss"@) {
            Err(
                with_file(
                    error_of(
                        ErrorCode::OrphanedGloss,
                        "gloss is not inside a sibling .gloss directory"@,
                    ),
                    gloss,
                ),
            )
        } else {
            let parent = match path_parent(dir) {
                Some(p) => p,
                None => seq![],
            };
            match path_file_name(gloss) {
                None => Err(invalid_in(gloss, "gloss path is not UTF-8"@)),
                Some(name) => match strip_suffix(name, ".gloss"@) {
                    Some(source) => if source.len() > 0 {
                        Ok(path_join(parent, source))
                    } else {
                        Err(invalid_in(gloss, "gloss file must end in .gloss"@))
                    },
                    None => Err(invalid_in(gloss, "gloss file must end in .gloss"@)),
                },
            }
        },
    }
}

pub open spec fn path_result_view(r: Result<String, GlossError>) -> Result<Seq<char>, ErrorView> {
    match r {
        Ok(p) => Ok(p@),
        Err(e) => Err(e@),
    }
}

fn piece_is_comp(ps: &Vec<Vec<char>>, j: usize) -> (b: bool)
    requires
        j < ps@.len(),
    ensures
        b == is_comp(seqs_view(ps@), j as int),
{
    proof {
        assert(seqs_view(ps@)[j as int] == ps@[j as int]@);
    }
    ps[j].len() > 0 && (!eq_str(&ps[j], ".") || j == 0)
}

fn last_comp_before_of(ps: &Vec<Vec<char>>, j: usize) -> (r: Option<usize>)
    requires
        j <= ps@.len(),
    ensures
        match r {
            Some(k) => last_comp_before(seqs_view(ps@), j as int) == k,
            None => last_comp_before(seqs_view(ps@), j as int) == -1,
        },
{
    let ghost pv = seqs_view(ps@);
    let mut k: usize = j;
    while k > 0 && !piece_is_comp(ps, k - 1)
        invariant
            pv == seqs_view(ps@),
            k <= j <= ps@.len(),
            last_comp_before(pv, j as int) == last_comp_before(pv, k as int),
        decreases k,
    {
        k = k - 1;
    }
    if k == 0 {
        None
    } else {
        Some(k - 1)
    }
}

fn join_slash_of(ps: &Vec<Vec<char>>, n: usize) -> (r: Vec<char>)
    requires
        1 <= n <= ps@.len(),
    ensures
        r@ == join_slash(seqs_view(ps@).take(n as int)),
{
    let ghost pv = seqs_view(ps@);
    let mut out: Vec<char> = Vec::new();
    push_all(&mut out, &ps[0]);
    proof {
        assert(pv[0] == ps@[0]@);
        assert(pv.take(1).drop_last() =~= Seq::<Seq<char>>::empty());
        assert(out@ =~= join_slash(pv.take(1)));
    }
    let mut i: usize = 1;
    while i < n
        invariant
            pv == seqs_view(ps@),
            1 <= i <= n <= ps@.len(),
            out@ == join_slash(pv.take(i as int)),
        decreases n - i,
    {
        out.push('/');
        push_all(&mut out, &ps[i]);
        proof {
            assert(pv[i as int] == ps@[i as int]@);
            assert(pv.take(i + 1).drop_last() =~= pv.take(i as int));
            assert(pv.take(i + 1).last() == pv[i as int]);
            assert(out@ =~= join_slash(pv.take(i + 1)));
        }
        i = i + 1;
    }
    out
}

/// `Path::file_name`.
pub fn file_name_of(p: &Vec<char>) -> (r: Option<Vec<char>>)
    ensures
        match r {
            Some(n) => path_file_name(p@) == Some(n@),
            None => path_file_name(p@) is None,
        },
{
    let ps = split_on(p, '/');
    let ghost pv = seqs_view(ps@);
    match last_comp_before_of(&ps, ps.len()) {
        None => None,
        Some(l) => {
            proof {
                lemma_last_comp(pv, pv.len() as int);
                assert(pv[l as int] == ps@[l as int]@);
            }
            if eq_str(&ps[l], ".") || eq_str(&ps[l], "..") {
                None
            } else {
                Some(crate::text::copy_of(&ps[l]))
            }
        },
    }
}

/// `Path::parent`.
pub fn parent_of(p: &Vec<char>) -> (r: Option<Vec<char>>)
    ensures
        match r {
            Some(d) => path_parent(p@) == Some(d@),
            None => path_parent(p@) is None,
        },
{
    let ps = split_on(p, '/');
    let ghost pv = seqs_view(ps@);
    match last_comp_before_of(&ps, ps.len()) {
        None => None,
        Some(l) => {
            proof {
                lemma_last_comp(pv, pv.len() as int);
                lemma_last_comp(pv, l as int);
            }
            match last_comp_before_of(&ps, l) {
                Some(m) => Some(join_slash_of(&ps, m + 1)),
                None => {
                    if p.len() > 0 && p[0] == '/' {
                        let mut r: Vec<char> = Vec::new();
                        push_str(&mut r, "/");
                        Some(r)
                    } else {
                        Some(Vec::new())
                    }
                },
            }
        },
    }
}

/// `PathBuf::push` of a relative name.
pub fn join_of(base: &Vec<char>, name: &Vec<char>) -> (r: Vec<char>)
    ensures
        r@ == path_join(base@, name@),
{
    let mut out = crate::text::copy_of(base);
    if base.len() > 0 && base[base.len() - 1] != '/' {
        out.push('/');
    }
    push_all(&mut out, name);
    proof {
        if base@.len() > 0 && base@.last() != '/' {
            assert(out@ =~= base@ + seq!['/'] + name@);
        }
    }
    out
}

/// The gloss file of a source file: `<dir>/.gloss/<name>.gloss`.
pub fn gloss_path(source: &str) -> (r: Result<String, GlossError>)
    ensures
        path_result_view(r) == gloss_path_spec(source@),
{
    let sc = chars_of(source);
    let name = match file_name_of(&sc) {
        Some(n) => n,
        None => {
            return Err(
                GlossError::new(ErrorCode::InvalidFormat, "source path has no file name".to_owned())
                    .file(source),
            );
        },
    };
    let parent = match parent_of(&sc) {
        Some(p) => p,
        None => Vec::new(),
    };
    let dir = join_of(&parent, &chars_of(".gloss"));
    let mut file = name;
    push_str(&mut file, ".gloss");
    Ok(string_of(&join_of(&dir, &file)))
}

/// The source file of a gloss file.
pub fn source_path(gloss: &str) -> (r: Result<String, GlossError>)
    ensures
        path_result_view(r) == source_path_spec(gloss@),
{
    let gc = chars_of(gloss);
    let dir = match parent_of(&gc) {
        Some(d) => d,
        None => {
            return Err(
                GlossError::new(ErrorCode::InvalidFormat, "gloss path has no parent".to_owned())
                    .file(gloss),
            );
        },
    };
    let in_gloss_dir = match file_name_of(&dir) {
        Some(n) => eq_str(&n, ".gloss"),
        None => false,
    };
    if !in_gloss_dir {
        return Err(
            GlossError::new(
                ErrorCode::OrphanedGloss,
                "gloss is not inside a sibling .gloss directory".to_owned(),
            ).file(gloss),
        );
    }
    let parent = match parent_of(&dir) {
        Some(p) => p,
        None => Vec::new(),
    };
    let name = match file_name_of(&gc) {
        Some(n) => n,
        None => {
            return Err(
                GlossError::new(ErrorCode::InvalidFormat, "gloss path is not UTF-8".to_owned())
                    .file(gloss),
            );
        },
    };
    let suffix = chars_of(".gloss");
    let stem: Option<Vec<char>> = if suffix.len() <= name.len() {
        let cut = name.len() - suffix.len();
        let tail = crate::text::slice_of(&name, cut, name.len());
        if crate::text::eq_chars(&tail, &suffix) {
            Some(crate::text::slice_of(&name, 0, cut))
        } else {
            None
        }
    } else {
        None
    };
    match stem {
        Some(src) => {
            if src.len() > 0 {
                Ok(string_of(&join_of(&parent, &src)))
            } else {
                Err(
                    GlossError::new(
                        ErrorCode::InvalidFormat,
                        "gloss file must end in .gloss".to_owned(),
                    ).file(gloss),
                )
            }
        },
        None => Err(
            GlossError::new(ErrorCode::InvalidFormat, "gloss file must end in .gloss".to_owned())
                .file(gloss),
        ),
    }
}


/// The components of pieces `j..`, in order.
pub open spec fn comps_from(ps: Seq<Seq<char>>, j: int) -> Seq<Seq<char>>
    decreases ps.len() - j,
{
    if j < 0 || j >= ps.len() {
        seq![]
    } else {
        (if is_comp(ps, j) {
            seq![ps[j]]
        } else {
            Seq::<Seq<char>>::empty()
        }) + comps_from(ps, j + 1)
    }
}

/// `Path::components`, with the root written `/`.
pub open spec fn components(p: Seq<char>) -> Seq<Seq<char>> {
    (if is_absolute(p) {
        seq!["/"@]
    } else {
        Seq::<Seq<char>>::empty()
    }) + comps_from(split(p, '/'), 0)
}

/// Path equality, which compares components.
pub open spec fn same_path(a: Seq<char>, b: Seq<char>) -> bool {
    components(a) == components(b)
}

/// `Path::starts_with`: the components of `base` open those of `p`.
pub open spec fn path_starts_with(p: Seq<char>, base: Seq<char>) -> bool {
    let cp = components(p);
    let cb = components(base);
    cb.len() <= cp.len() && cp.take(cb.len() as int) == cb
}

/// Piece index of the `n`-th component at or after piece `j` (roots not
/// counted), or `ps.len()`.
pub open spec fn nth_comp_from(ps: Seq<Seq<char>>, j: int, n: nat) -> int
    decreases ps.len() - j,
{
    if j < 0 || j >= ps.len() {
        ps.len() as int
    } else if is_comp(ps, j) {
        if n == 0 {
            j
        } else {
            nth_comp_from(ps, j + 1, (n - 1) as nat)
        }
    } else {
        nth_comp_from(ps, j + 1, n)
    }
}

/// `Path::strip_prefix`: when the components of `base` open those of `p`,
/// the text of `p` from its next component to its last one.
pub open spec fn path_strip_prefix(p: Seq<char>, base: Seq<char>) -> Option<Seq<char>> {
    if !path_starts_with(p, base) {
        None
    } else {
        let ps = split(p, '/');
        let last = last_comp_before(ps, ps.len() as int);
        let cb = components(base);
        if cb.len() == 0 {
            Some(
                if last >= 0 {
                    join_slash(ps.take(last + 1))
                } else if is_absolute(p) {
                    "/"@
                } else {
                    seq![]
                },
            )
        } else {
            let k = cb.len() - (if is_absolute(p) {
                1int
            } else {
                0int
            });
            let first = nth_comp_from(ps, 0, k as nat);
            Some(
                if first <= last {
                    join_slash(ps.subrange(first, last + 1))
                } else {
                    seq![]
                },
            )
        }
    }
}

/// Whether some component of the path is `.gloss`: the path is a gloss
/// file or lies in a gloss directory, so it is no source to explain.
pub open spec fn in_gloss_dir(p: Seq<char>) -> bool {
    exists|i: int| 0 <= i < components(p).len() && #[trigger] components(p)[i] == ".gloss"@
}

fn comps_from_of(ps: &Vec<Vec<char>>) -> (r: Vec<Vec<char>>)
    ensures
        seqs_view(r@) == comps_from(seqs_view(ps@), 0),
{
    let ghost pv = seqs_view(ps@);
    let mut r: Vec<Vec<char>> = Vec::new();
    let mut j: usize = ps.len();
    proof {
        assert(comps_from(pv, pv.len() as int) =~= Seq::<Seq<char>>::empty());
    }
    while j > 0
        invariant
            pv == seqs_view(ps@),
            j <= ps@.len(),
            seqs_view(r@) == comps_from(pv, j as int),
        decreases j,
    {
        j = j - 1;
        let ghost before = seqs_view(r@);
        if piece_is_comp(ps, j) {
            let item = crate::text::copy_of(&ps[j]);
            r.insert(0, item);
            proof {
                assert(pv[j as int] == ps@[j as int]@);
                assert(seqs_view(r@) =~= seq![pv[j as int]] + before);
            }
        } else {
            proof {
                assert(seqs_view(r@) =~= Seq::<Seq<char>>::empty() + before);
            }
        }
    }
    r
}

/// `Path::components`, with the root written `/`.
pub fn components_of(p: &Vec<char>) -> (r: Vec<Vec<char>>)
    ensures
        seqs_view(r@) == components(p@),
{
    let ps = split_on(p, '/');
    let rest = comps_from_of(&ps);
    let mut r: Vec<Vec<char>> = Vec::new();
    if p.len() > 0 && p[0] == '/' {
        let mut root: Vec<char> = Vec::new();
        push_str(&mut root, "/");
        r.push(root);
    }
    let ghost head = seqs_view(r@);
    let mut i: usize = 0;
    while i < rest.len()
        invariant
            i <= rest@.len(),
            seqs_view(r@) == head + seqs_view(rest@).take(i as int),
        decreases rest@.len() - i,
    {
        let ghost before = seqs_view(r@);
        let item = crate::text::copy_of(&rest[i]);
        r.push(item);
        proof {
            assert(seqs_view(r@) =~= before.push(item@));
            assert(seqs_view(rest@).take(i + 1) =~= seqs_view(rest@).take(i as int).push(
                rest@[i as int]@,
            ));
        }
        i = i + 1;
    }
    proof {
        assert(seqs_view(rest@).take(rest@.len() as int) =~= seqs_view(rest@));
        assert(seqs_view(r@) =~= components(p@));
    }
    r
}

/// Whether `ls[..n]` equals `prefix`.
fn opens_with(ls: &Vec<Vec<char>>, prefix: &Vec<Vec<char>>) -> (b: bool)
    ensures
        b == (seqs_view(prefix@).len() <= seqs_view(ls@).len() && seqs_view(ls@).take(
            seqs_view(prefix@).len() as int,
        ) == seqs_view(prefix@)),
{
    let ghost lv = seqs_view(ls@);
    let ghost pv = seqs_view(prefix@);
    if prefix.len() > ls.len() {
        return false;
    }
    let mut i: usize = 0;
    while i < prefix.len()
        invariant
            lv == seqs_view(ls@),
            pv == seqs_view(prefix@),
            prefix@.len() <= ls@.len(),
            i <= prefix@.len(),
            forall|j: int| 0 <= j < i ==> lv[j] == pv[j],
        decreases prefix@.len() - i,
    {
        proof {
            assert(lv[i as int] == ls@[i as int]@);
            assert(pv[i as int] == prefix@[i as int]@);
        }
        if !crate::text::eq_chars(&ls[i], &prefix[i]) {
            proof {
                assert(lv.take(pv.len() as int)[i as int] != pv[i as int]);
            }
            return false;
        }
        i = i + 1;
    }
    proof {
        assert(lv.take(pv.len() as int) =~= pv);
    }
    true
}

/// Path equality.
pub fn same_path_of(a: &Vec<char>, b: &Vec<char>) -> (r: bool)
    ensures
        r == same_path(a@, b@),
{
    let ca = components_of(a);
    let cb = components_of(b);
    let r = opens_with(&ca, &cb) && ca.len() == cb.len();
    proof {
        if r {
            assert(seqs_view(ca@).take(seqs_view(cb@).len() as int) =~= seqs_view(ca@));
        }
        if seqs_view(ca@) == seqs_view(cb@) {
            assert(seqs_view(ca@).take(seqs_view(cb@).len() as int) =~= seqs_view(cb@));
        }
    }
    r
}

/// `Path::starts_with`.
pub fn starts_with_path(p: &Vec<char>, base: &Vec<char>) -> (r: bool)
    ensures
        r == path_starts_with(p@, base@),
{
    let cp = components_of(p);
    let cb = components_of(base);
    opens_with(&cp, &cb)
}

fn nth_comp_from_of(ps: &Vec<Vec<char>>, n: usize) -> (r: usize)
    ensures
        r == nth_comp_from(seqs_view(ps@), 0, n as nat),
        r <= ps@.len(),
{
    let ghost pv = seqs_view(ps@);
    let mut j: usize = 0;
    let mut left: usize = n;
    while j < ps.len() && !(piece_is_comp(ps, j) && left == 0)
        invariant
            pv == seqs_view(ps@),
            j <= ps@.len(),
            nth_comp_from(pv, 0, n as nat) == nth_comp_from(pv, j as int, left as nat),
        decreases ps@.len() - j,
    {
        if piece_is_comp(ps, j) {
            left = left - 1;
        }
        j = j + 1;
    }
    j
}

/// `Path::strip_prefix`.
pub fn strip_prefix_path(p: &Vec<char>, base: &Vec<char>) -> (r: Option<Vec<char>>)
    ensures
        match r {
            Some(rest) => path_strip_prefix(p@, base@) == Some(rest@),
            None => path_strip_prefix(p@, base@) is None,
        },
{
    if !starts_with_path(p, base) {
        return None;
    }
    let ps = split_on(p, '/');
    let ghost pv = seqs_view(ps@);
    let cb = components_of(base);
    let absolute = p.len() > 0 && p[0] == '/';
    let last = last_comp_before_of(&ps, ps.len());
    proof {
        lemma_last_comp(pv, pv.len() as int);
    }
    if cb.len() == 0 {
        match last {
            Some(l) => {
                return Some(join_slash_of(&ps, l + 1));
            },
            None => {
                let mut r: Vec<char> = Vec::new();
                if absolute {
                    push_str(&mut r, "/");
                }
                return Some(r);
            },
        }
    }
    proof {
        if absolute {
            assert(components(p@)[0] == "/"@);
        }
    }
    let k: usize = if absolute {
        cb.len() - 1
    } else {
        cb.len()
    };
    let first = nth_comp_from_of(&ps, k);
    match last {
        Some(l) => {
            if first <= l {
                Some(join_range_of(&ps, first, l + 1))
            } else {
                Some(Vec::new())
            }
        },
        None => Some(Vec::new()),
    }
}

fn join_range_of(ps: &Vec<Vec<char>>, a: usize, b: usize) -> (r: Vec<char>)
    requires
        a < b <= ps@.len(),
    ensures
        r@ == join_slash(seqs_view(ps@).subrange(a as int, b as int)),
{
    let ghost pv = seqs_view(ps@);
    let mut out = crate::text::copy_of(&ps[a]);
    proof {
        assert(pv[a as int] == ps@[a as int]@);
        assert(pv.subrange(a as int, a + 1).drop_last() =~= Seq::<Seq<char>>::empty());
        assert(out@ =~= join_slash(pv.subrange(a as int, a + 1)));
    }
    let mut i: usize = a + 1;
    while i < b
        invariant
            pv == seqs_view(ps@),
            a < i <= b <= ps@.len(),
            out@ == join_slash(pv.subrange(a as int, i as int)),
        decreases b - i,
    {
        out.push('/');
        push_all(&mut out, &ps[i]);
        proof {
            assert(pv[i as int] == ps@[i as int]@);
            assert(pv.subrange(a as int, i + 1).drop_last() =~= pv.subrange(a as int, i as int));
            assert(pv.subrange(a as int, i + 1).last() == pv[i as int]);
            assert(out@ =~= join_slash(pv.subrange(a as int, i + 1)));
        }
        i = i + 1;
    }
    out
}

/// Whether the path lies in a gloss directory, so it is no source.
pub fn ignored_source(path: &str) -> (b: bool)
    ensures
        b == in_gloss_dir(path@),
{
    let pc = chars_of(path);
    let comps = components_of(&pc);
    let ghost cv = seqs_view(comps@);
    let mut i: usize = 0;
    while i < comps.len()
        invariant
            cv == seqs_view(comps@),
            cv == components(path@),
            i <= comps@.len(),
            forall|j: int| 0 <= j < i ==> cv[j] != ".gloss"@,
        decreases comps@.len() - i,
    {
        proof {
            assert(cv[i as int] == comps@[i as int]@);
        }
        if eq_str(&comps[i], ".gloss") {
            return true;
        }
        i = i + 1;
    }
    false
}


/// Whether a changed path is one `lint` and `update` look at: every path
/// when none is named, else one that is a named path, lies under one, or
/// has a named path as its gloss.
pub open spec fn selected_spec(source: Seq<char>, paths: Seq<Seq<char>>) -> bool {
    paths.len() == 0 || exists|i: int|
        0 <= i < paths.len() && (same_path(source, #[trigger] paths[i]) || path_starts_with(
            source,
            paths[i],
        ) || (gloss_path_spec(source) matches Ok(g) && same_path(g, paths[i])))
}

pub fn selected(source: &str, paths: &Vec<String>) -> (b: bool)
    ensures
        b == selected_spec(source@, paths@.map_values(|p: String| p@)),
{
    let ghost pv = paths@.map_values(|p: String| p@);
    if paths.len() == 0 {
        return true;
    }
    let sc = chars_of(source);
    let gloss = gloss_path(source);
    let mut i: usize = 0;
    while i < paths.len()
        invariant
            pv == paths@.map_values(|p: String| p@),
            sc@ == source@,
            path_result_view(gloss) == gloss_path_spec(source@),
            i <= paths@.len(),
            forall|j: int| 0 <= j < i ==> !(same_path(source@, #[trigger] pv[j]) || path_starts_with(
                source@,
                pv[j],
            ) || (gloss_path_spec(source@) matches Ok(g) && same_path(g, pv[j]))),
        decreases paths@.len() - i,
    {
        let pc = chars_of(paths[i].as_str());
        proof {
            assert(pv[i as int] == paths@[i as int]@);
        }
        if same_path_of(&sc, &pc) || starts_with_path(&sc, &pc) {
            return true;
        }
        match &gloss {
            Ok(g) => {
                if same_path_of(&chars_of(g.as_str()), &pc) {
                    return true;
                }
            },
            Err(_) => {},
        }
        i = i + 1;
    }
    false
}

/// `Path::extension`: what follows the last `.` of the file name, unless
/// the name has no `.` past its first character.
pub open spec fn path_extension(p: Seq<char>) -> Option<Seq<char>> {
    match path_file_name(p) {
        None => None,
        Some(name) => {
            let k = last_dot(name, name.len() as int);
            if k <= 0 {
                None
            } else {
                Some(name.subrange(k + 1, name.len() as int))
            }
        },
    }
}

/// Index of the last `.` before index `j`, or -1.
pub open spec fn last_dot(s: Seq<char>, j: int) -> int
    decreases j,
{
    if j <= 0 || j > s.len() {
        -1
    } else if s[j - 1] == '.' {
        j - 1
    } else {
        last_dot(s, j - 1)
    }
}

pub proof fn lemma_last_dot(s: Seq<char>, j: int)
    requires
        0 <= j <= s.len(),
    ensures
        -1 <= last_dot(s, j) < j,
    decreases j,
{
    if j > 0 && s[j - 1] != '.' {
        lemma_last_dot(s, j - 1);
    }
}

/// Whether the path names a gloss file by its extension.
pub fn is_gloss_file(path: &str) -> (b: bool)
    ensures
        b == (path_extension(path@) == Some("gloss"@)),
{
    has_extension(path, "gloss")
}

/// Whether the path's extension is `ext`.
pub fn has_extension(path: &str, ext: &str) -> (b: bool)
    ensures
        b == (path_extension(path@) == Some(ext@)),
{
    match file_name_of(&chars_of(path)) {
        None => false,
        Some(name) => {
            let mut j: usize = name.len();
            while j > 0 && name[j - 1] != '.'
                invariant
                    j <= name@.len(),
                    last_dot(name@, name@.len() as int) == last_dot(name@, j as int),
                decreases j,
            {
                j = j - 1;
            }
            proof {
                lemma_last_dot(name@, name@.len() as int);
            }
            if j <= 1 {
                proof {
                    if j == 1 {
                        assert(last_dot(name@, 1) == 0);
                    }
                }
                false
            } else {
                let found = crate::text::slice_of(&name, j, name.len());
                eq_str(&found, ext)
            }
        },
    }
}

/// Whether a directory walk enters an entry: not `.git`, not `target`.
pub fn walk_entry_allowed(name: &str) -> (b: bool)
    ensures
        b == (name@ != ".git"@ && name@ != "target"@),
{
    let n = chars_of(name);
    !eq_str(&n, ".git") && !eq_str(&n, "target")
}

/// Whether a file met while walking is a gloss to check: it ends in
/// `.gloss`, and, unless misplaced glosses are wanted, sits where a source
/// file can be found for it.
pub fn gloss_candidate(relative: &str, include_misplaced: bool) -> (b: bool)
    ensures
        b == (path_extension(relative@) == Some("gloss"@) && (include_misplaced
            || source_path_spec(relative@) is Ok)),
{
    is_gloss_file(relative) && (include_misplaced || source_path(relative).is_ok())
}

/// A path piece that stays itself: non-empty, no `/`, and not `.` or `..`.
pub open spec fn plain_piece(x: Seq<char>) -> bool {
    &&& x.len() > 0
    &&& crate::round_trip::free_of(x, '/')
    &&& x != "."@
    &&& x != ".."@
}

/// A relative path written plainly: pieces joined by single `/`.
pub open spec fn plain_pieces(ps: Seq<Seq<char>>) -> bool {
    ps.len() >= 1 && forall|i: int| 0 <= i < ps.len() ==> plain_piece(#[trigger] ps[i])
}

proof fn lemma_join_slash_pieces(ps: Seq<Seq<char>>)
    requires
        plain_pieces(ps),
    ensures
        split(join_slash(ps), '/') == ps,
        join_slash(ps).len() > 0,
        join_slash(ps)[0] != '/',
        join_slash(ps).last() != '/',
    decreases ps.len(),
{
    reveal_strlit(".");
    reveal_strlit("..");
    if ps.len() == 1 {
        crate::round_trip::lemma_split_single(ps[0], '/');
        assert(seq![ps[0]] =~= ps);
        assert(plain_piece(ps[0]));
        assert(ps[0][0] != '/');
        assert(ps[0].last() != '/');
    } else {
        let d = ps.drop_last();
        assert forall|i: int| 0 <= i < d.len() implies plain_piece(#[trigger] d[i]) by {
            assert(d[i] == ps[i]);
        }
        lemma_join_slash_pieces(d);
        let l = ps.last();
        assert(plain_piece(ps[ps.len() - 1]));
        crate::round_trip::lemma_split_concat(join_slash(d), l, '/');
        crate::round_trip::lemma_split_single(l, '/');
        assert(ps =~= d + seq![l]);
        let j = join_slash(ps);
        assert(j == join_slash(d) + seq!['/'] + l);
        assert(j[0] == join_slash(d)[0]);
        assert(j.last() == l.last());
        assert(l[l.len() - 1] != '/');
    }
}

proof fn lemma_last_comp_plain(ps: Seq<Seq<char>>, j: int)
    requires
        plain_pieces(ps),
        0 <= j <= ps.len(),
    ensures
        last_comp_before(ps, j) == j - 1,
{
    reveal_strlit(".");
    if j > 0 {
        assert(plain_piece(ps[j - 1]));
        assert(is_comp(ps, j - 1));
    }
}

/// The file name and parent of a plain path.
proof fn lemma_plain_name_parent(ps: Seq<Seq<char>>)
    requires
        plain_pieces(ps),
    ensures
        path_file_name(join_slash(ps)) == Some(ps.last()),
        path_parent(join_slash(ps)) == Some(
            if ps.len() >= 2 {
                join_slash(ps.drop_last())
            } else {
                Seq::<char>::empty()
            },
        ),
{
    reveal_strlit(".");
    reveal_strlit("..");
    lemma_join_slash_pieces(ps);
    let n = ps.len() as int;
    lemma_last_comp_plain(ps, n);
    lemma_last_comp_plain(ps, n - 1);
    assert(plain_piece(ps[n - 1]));
    if n >= 2 {
        assert(ps.take(n - 1) =~= ps.drop_last());
    }
}

/// Joining a plain path and a plain piece.
proof fn lemma_plain_join(ps: Seq<Seq<char>>, x: Seq<char>)
    requires
        ps.len() == 0 || plain_pieces(ps),
        plain_piece(x),
    ensures
        path_join(
            if ps.len() == 0 {
                Seq::<char>::empty()
            } else {
                join_slash(ps)
            },
            x,
        ) == join_slash(ps.push(x)),
        plain_pieces(ps.push(x)),
{
    if ps.len() == 0 {
        assert(ps.push(x) =~= seq![x]);
    } else {
        lemma_join_slash_pieces(ps);
        assert(ps.push(x).drop_last() =~= ps);
    }
    assert forall|i: int| 0 <= i < ps.push(x).len() implies plain_piece(#[trigger] ps.push(x)[i]) by {
        if i < ps.len() {
            assert(ps.push(x)[i] == ps[i]);
        }
    }
}

/// Joining a plain name onto any path gives a path that has a parent.
pub proof fn lemma_join_has_parent(d: Seq<char>, x: Seq<char>)
    requires
        plain_piece(x),
    ensures
        path_parent(path_join(d, x)) is Some,
{
    reveal_strlit(".");
    crate::round_trip::lemma_split_single(x, '/');
    let j = path_join(d, x);
    let ps = split(j, '/');
    if d.len() == 0 {
        assert(ps == seq![x]);
    } else {
        let a = if d.last() == '/' {
            d.drop_last()
        } else {
            d
        };
        assert(j =~= a + seq!['/'] + x);
        crate::round_trip::lemma_split_concat(a, x, '/');
        assert(ps == split(a, '/') + seq![x]);
    }
    assert(ps[ps.len() - 1] == x);
    assert(is_comp(ps, ps.len() - 1));
}

/// A source file at a plain relative path has its gloss in the sibling
/// `.gloss` directory, that gloss maps back to exactly the source path, and
/// the source of such a gloss maps to the gloss again.
pub proof fn lemma_gloss_path_round_trip(ps: Seq<Seq<char>>)
    requires
        plain_pieces(ps),
    ensures
        gloss_path_spec(join_slash(ps)) == Ok::<Seq<char>, ErrorView>(
            join_slash(ps.drop_last() + seq![".gloss"@, ps.last() + ".gloss"@]),
        ),
        source_path_spec(join_slash(ps.drop_last() + seq![".gloss"@, ps.last() + ".gloss"@]))
            == Ok::<Seq<char>, ErrorView>(join_slash(ps)),
        gloss_path_spec(
            source_path_spec(join_slash(ps.drop_last() + seq![".gloss"@, ps.last() + ".gloss"@]))->Ok_0,
        ) == Ok::<Seq<char>, ErrorView>(
            join_slash(ps.drop_last() + seq![".gloss"@, ps.last() + ".gloss"@]),
        ),
{
    reveal_strlit(".gloss");
    reveal_strlit(".");
    reveal_strlit("..");
    let name = ps.last();
    let d = ps.drop_last();
    let dot_gloss = ".gloss"@;
    let gname = name + dot_gloss;
    assert(plain_piece(ps[ps.len() - 1]));
    assert(plain_piece(dot_gloss)) by {
        assert(dot_gloss.len() == 6);
        assert(dot_gloss != "."@ && dot_gloss != ".."@) by {
            assert("."@.len() == 1 && ".."@.len() == 2);
        }
    }
    assert(plain_piece(gname)) by {
        assert(gname.len() >= 7);
        assert forall|j: int| 0 <= j < gname.len() implies gname[j] != '/' by {
            if j < name.len() {
                assert(gname[j] == name[j]);
            } else {
                assert(gname[j] == dot_gloss[j - name.len()]);
            }
        }
        assert(gname != "."@ && gname != ".."@) by {
            assert("."@.len() == 1 && ".."@.len() == 2);
        }
    }
    assert forall|i: int| 0 <= i < d.len() implies plain_piece(#[trigger] d[i]) by {
        assert(d[i] == ps[i]);
    }
    lemma_plain_name_parent(ps);
    let parent = if ps.len() >= 2 {
        join_slash(d)
    } else {
        Seq::<char>::empty()
    };
    lemma_plain_join(d, dot_gloss);
    let ds = d.push(dot_gloss);
    lemma_plain_join(ds, gname);
    let gs = ds.push(gname);
    assert(gs =~= d + seq![dot_gloss, gname]);
    assert(gloss_path_spec(join_slash(ps)) == Ok::<Seq<char>, ErrorView>(join_slash(gs)));
    lemma_plain_name_parent(gs);
    assert(gs.drop_last() =~= ds);
    lemma_plain_name_parent(ds);
    assert(ds.drop_last() =~= d);
    assert(ds.last() == dot_gloss);
    assert(gs.last() == gname);
    assert(gname.subrange(gname.len() - dot_gloss.len(), gname.len() as int) =~= dot_gloss);
    assert(gname.subrange(0, gname.len() - dot_gloss.len()) =~= name);
    lemma_plain_join(d, name);
    assert(d.push(name) =~= ps);
}

/// The parts of a split are never empty as a list and hold no separator.
proof fn lemma_split_parts(s: Seq<char>, c: char, i: int)
    requires
        0 <= i <= s.len(),
    ensures
        split_from(s, c, i).len() >= 1,
        forall|k: int|
            0 <= k < split_from(s, c, i).len() ==> crate::round_trip::free_of(
                #[trigger] split_from(s, c, i)[k],
                c,
            ),
    decreases s.len() - i,
{
    lemma_find_char(s, c, i);
    let k = find_char_from(s, c, i);
    if k >= s.len() {
        let t = s.subrange(i, s.len() as int);
        assert(split_from(s, c, i) == seq![t]);
        assert forall|j: int| 0 <= j < t.len() implies t[j] != c by {
            assert(t[j] == s[i + j]);
        }
    } else {
        let t = s.subrange(i, k);
        lemma_split_parts(s, c, k + 1);
        let r = split_from(s, c, k + 1);
        assert(split_from(s, c, i) == seq![t] + r);
        assert forall|j: int| 0 <= j < t.len() implies t[j] != c by {
            assert(t[j] == s[i + j]);
        }
        assert forall|m: int| 0 <= m < (seq![t] + r).len() implies crate::round_trip::free_of(
            #[trigger] (seq![t] + r)[m],
            c,
        ) by {
            if m > 0 {
                assert((seq![t] + r)[m] == r[m - 1]);
            }
        }
    }
}

/// Pieces free of `/`, joined with `/`, split back into themselves.
proof fn lemma_split_join_slash(ls: Seq<Seq<char>>)
    requires
        ls.len() >= 1,
        forall|i: int| 0 <= i < ls.len() ==> crate::round_trip::free_of(#[trigger] ls[i], '/'),
    ensures
        split(join_slash(ls), '/') == ls,
    decreases ls.len(),
{
    if ls.len() == 1 {
        crate::round_trip::lemma_split_single(ls[0], '/');
        assert(seq![ls[0]] =~= ls);
    } else {
        let d = ls.drop_last();
        assert forall|i: int| 0 <= i < d.len() implies crate::round_trip::free_of(
            #[trigger] d[i],
            '/',
        ) by {
            assert(d[i] == ls[i]);
        }
        lemma_split_join_slash(d);
        assert(crate::round_trip::free_of(ls[ls.len() - 1], '/'));
        crate::round_trip::lemma_split_concat(join_slash(d), ls.last(), '/');
        crate::round_trip::lemma_split_single(ls.last(), '/');
        assert(d + seq![ls.last()] =~= ls);
    }
}

/// A path is absolute when its first piece is empty and another follows.
proof fn lemma_absolute_split(p: Seq<char>)
    ensures
        is_absolute(p) == (split(p, '/').len() >= 2 && split(p, '/')[0].len() == 0),
{
    lemma_find_char(p, '/', 0);
    let k = find_char_from(p, '/', 0);
    if k < p.len() {
        lemma_split_parts(p, '/', k + 1);
        assert(split(p, '/') == seq![p.subrange(0, k)] + split_from(p, '/', k + 1));
        if p[0] == '/' {
            lemma_find_char_is(p, '/', 0, 0);
        }
    } else {
        assert(split(p, '/') == seq![p.subrange(0, p.len() as int)]);
    }
}

/// The components of pieces `j..` are those before `k`, then those from `k`.
proof fn lemma_comps_take(ps: Seq<Seq<char>>, j: int, k: int)
    requires
        0 <= j <= k <= ps.len(),
    ensures
        comps_from(ps, j) == comps_from(ps.take(k), j) + comps_from(ps, k),
    decreases k - j,
{
    if j < k {
        lemma_comps_take(ps, j + 1, k);
        assert(ps.take(k)[j] == ps[j]);
        let head = if is_comp(ps, j) {
            seq![ps[j]]
        } else {
            Seq::<Seq<char>>::empty()
        };
        assert(comps_from(ps, j) == head + comps_from(ps, j + 1));
        assert(comps_from(ps.take(k), j) == head + comps_from(ps.take(k), j + 1));
        assert(head + (comps_from(ps.take(k), j + 1) + comps_from(ps, k)) =~= (head
            + comps_from(ps.take(k), j + 1)) + comps_from(ps, k));
    } else {
        assert(comps_from(ps.take(k), j) == Seq::<Seq<char>>::empty());
        assert(comps_from(ps, j) =~= Seq::<Seq<char>>::empty() + comps_from(ps, k));
    }
}

/// Pieces without a component have no components.
proof fn lemma_comps_none(ps: Seq<Seq<char>>, j: int)
    requires
        0 <= j,
        forall|k: int| j <= k < ps.len() ==> !is_comp(ps, k),
    ensures
        comps_from(ps, j) == Seq::<Seq<char>>::empty(),
    decreases ps.len() - j,
{
    if j < ps.len() {
        lemma_comps_none(ps, j + 1);
        assert(comps_from(ps, j) =~= Seq::<Seq<char>>::empty() + comps_from(ps, j + 1));
    }
}

/// The components end with the last component piece, and those before it
/// end with the one before that.
proof fn lemma_comps_last(ps: Seq<Seq<char>>)
    ensures
        last_comp_before(ps, ps.len() as int) < 0 ==> comps_from(ps, 0) == Seq::<
            Seq<char>,
        >::empty(),
        last_comp_before(ps, ps.len() as int) >= 0 ==> comps_from(ps, 0) == comps_from(
            ps.take(last_comp_before(ps, ps.len() as int)),
            0,
        ).push(ps[last_comp_before(ps, ps.len() as int)]),
        last_comp_before(ps, ps.len() as int) >= 0 ==> comps_from(
            ps.take(last_comp_before(ps, ps.len() as int)),
            0,
        ) == comps_from(
            ps.take(last_comp_before(ps, last_comp_before(ps, ps.len() as int)) + 1),
            0,
        ),
{
    let n = ps.len() as int;
    lemma_last_comp(ps, n);
    let l = last_comp_before(ps, n);
    if l < 0 {
        lemma_comps_none(ps, 0);
    } else {
        lemma_comps_take(ps, 0, l);
        lemma_comps_none(ps, l + 1);
        assert(comps_from(ps, l) =~= seq![ps[l]] + comps_from(ps, l + 1));
        let m = last_comp_before(ps, l);
        lemma_last_comp(ps, l);
        let t = ps.take(l);
        lemma_comps_take(t, 0, m + 1);
        assert(t.take(m + 1) =~= ps.take(m + 1));
        assert forall|k: int| m + 1 <= k < t.len() implies !is_comp(t, k) by {
            assert(t[k] == ps[k]);
            assert(!is_comp(ps, k));
        }
        lemma_comps_none(t, m + 1);
        assert(comps_from(t, 0) =~= comps_from(ps.take(m + 1), 0));
        assert(comps_from(ps, 0) =~= comps_from(t, 0).push(ps[l]));
    }
}

/// The file name a list of components gives: its last, when that is a name.
pub open spec fn name_of_components(c: Seq<Seq<char>>) -> Option<Seq<char>> {
    if c.len() == 0 || c.last() == "/"@ || c.last() == "."@ || c.last() == ".."@ {
        None
    } else {
        Some(c.last())
    }
}

/// A path's file name is read off its components.
pub proof fn lemma_file_name_components(p: Seq<char>)
    ensures
        path_file_name(p) == name_of_components(components(p)),
{
    reveal_strlit("/");
    let ps = split(p, '/');
    lemma_comps_last(ps);
    lemma_split_parts(p, '/', 0);
    let l = last_comp_before(ps, ps.len() as int);
    lemma_last_comp(ps, ps.len() as int);
    if l >= 0 {
        assert(crate::round_trip::free_of(ps[l], '/'));
        assert(ps[l] != "/"@) by {
            assert("/"@[0] == '/');
        }
        assert(components(p).last() == ps[l]);
    }
}

/// A path's parent has its components but the last.
pub proof fn lemma_parent_components(p: Seq<char>)
    ensures
        path_parent(p) is Some == (comps_from(split(p, '/'), 0).len() > 0),
        path_parent(p) is Some ==> components(path_parent(p)->Some_0) == components(
            p,
        ).drop_last(),
{
    reveal_strlit("/");
    let ps = split(p, '/');
    let n = ps.len() as int;
    lemma_comps_last(ps);
    lemma_split_parts(p, '/', 0);
    lemma_last_comp(ps, n);
    lemma_absolute_split(p);
    let l = last_comp_before(ps, n);
    if l >= 0 {
        let m = last_comp_before(ps, l);
        lemma_last_comp(ps, l);
        let q = path_parent(p)->Some_0;
        let pre = if is_absolute(p) {
            seq!["/"@]
        } else {
            Seq::<Seq<char>>::empty()
        };
        assert(components(p) == pre + comps_from(ps.take(m + 1), 0).push(ps[l]));
        if m >= 0 {
            let t = ps.take(m + 1);
            assert forall|i: int| 0 <= i < t.len() implies crate::round_trip::free_of(
                #[trigger] t[i],
                '/',
            ) by {
                assert(t[i] == ps[i]);
            }
            lemma_split_join_slash(t);
            lemma_absolute_split(q);
            if ps[0].len() == 0 {
                assert(!is_comp(ps, 0));
                assert(m >= 1);
            }
            assert(is_absolute(q) == is_absolute(p));
            assert(components(q) =~= components(p).drop_last());
        } else {
            assert(ps.take(0) =~= Seq::<Seq<char>>::empty());
            assert(comps_from(ps.take(0), 0) == Seq::<Seq<char>>::empty());
            if is_absolute(p) {
                crate::round_trip::lemma_split_concat(seq![], seq![], '/');
                crate::round_trip::lemma_split_single(seq![], '/');
                assert(Seq::<char>::empty() + seq!['/'] + Seq::<char>::empty() =~= "/"@);
                let qs = split("/"@, '/');
                assert(qs =~= seq![Seq::<char>::empty(), Seq::<char>::empty()]);
                lemma_comps_none(qs, 0);
                assert(components(q) =~= components(p).drop_last());
            } else {
                crate::round_trip::lemma_split_single(seq![], '/');
                lemma_comps_none(split(Seq::<char>::empty(), '/'), 0);
                assert(components(q) =~= components(p).drop_last());
            }
        }
    }
}

/// Joining a plain name adds it as the last component.
pub proof fn lemma_join_components(d: Seq<char>, x: Seq<char>)
    requires
        plain_piece(x),
    ensures
        components(path_join(d, x)) == components(d).push(x),
{
    reveal_strlit(".");
    crate::round_trip::lemma_split_single(x, '/');
    if d.len() == 0 {
        crate::round_trip::lemma_split_single(d, '/');
        lemma_comps_none(split(d, '/'), 0);
        assert(comps_from(seq![x], 0) =~= seq![x] + comps_from(seq![x], 1));
        assert(components(path_join(d, x)) =~= components(d).push(x));
    } else {
        let a = if d.last() == '/' {
            d.drop_last()
        } else {
            d
        };
        let j = path_join(d, x);
        assert(j =~= a + seq!['/'] + x);
        crate::round_trip::lemma_split_concat(a, x, '/');
        let sa = split(a, '/');
        lemma_split_parts(a, '/', 0);
        let sj = sa + seq![x];
        assert(split(j, '/') == sj);
        lemma_comps_take(sj, 0, sa.len() as int);
        assert(sj.take(sa.len() as int) =~= sa);
        assert(comps_from(sj, sa.len() as int) =~= seq![x] + comps_from(sj, sa.len() as int + 1));
        if d.last() == '/' {
            crate::round_trip::lemma_split_concat(a, seq![], '/');
            crate::round_trip::lemma_split_single(seq![], '/');
            assert(a + seq!['/'] + Seq::<char>::empty() =~= d);
            let sd = sa + seq![Seq::<char>::empty()];
            assert(split(d, '/') == sd);
            lemma_comps_take(sd, 0, sa.len() as int);
            assert(sd.take(sa.len() as int) =~= sa);
            lemma_comps_none(sd, sa.len() as int);
            if a.len() > 0 {
                assert(j[0] == a[0] && d[0] == a[0]);
            } else {
                assert(j[0] == '/' && d[0] == '/');
            }
        } else {
            assert(j[0] == d[0]);
        }
        assert(components(j) =~= components(d).push(x));
    }
}

/// A name with `.gloss` after it is a plain piece, and stripping the
/// suffix gives the name back.
proof fn lemma_gloss_name(name: Seq<char>)
    requires
        plain_piece(name),
    ensures
        plain_piece(name + ".gloss"@),
        strip_suffix(name + ".gloss"@, ".gloss"@) == Some(name),
        plain_piece(".gloss"@),
{
    reveal_strlit(".gloss");
    reveal_strlit(".");
    reveal_strlit("..");
    let dot_gloss = ".gloss"@;
    let gname = name + dot_gloss;
    assert(dot_gloss.len() == 6);
    assert(dot_gloss != "."@ && dot_gloss != ".."@) by {
        assert("."@.len() == 1 && ".."@.len() == 2);
    }
    assert forall|j: int| 0 <= j < gname.len() implies gname[j] != '/' by {
        if j < name.len() {
            assert(gname[j] == name[j]);
        } else {
            assert(gname[j] == dot_gloss[j - name.len()]);
        }
    }
    assert(gname != "."@ && gname != ".."@) by {
        assert("."@.len() == 1 && ".."@.len() == 2);
    }
    assert(gname.subrange(gname.len() - dot_gloss.len(), gname.len() as int) =~= dot_gloss);
    assert(gname.subrange(0, gname.len() - dot_gloss.len()) =~= name);
}

/// A plain piece is no root.
proof fn lemma_plain_not_root(x: Seq<char>)
    requires
        plain_piece(x),
    ensures
        x != "/"@,
{
    reveal_strlit("/");
    if x == "/"@ {
        assert(x[0] == '/');
    }
}

/// The file name of a path, when it has one, is a plain piece.
proof fn lemma_file_name_plain(p: Seq<char>)
    requires
        path_file_name(p) is Some,
    ensures
        plain_piece(path_file_name(p)->Some_0),
        path_parent(p) is Some,
{
    let ps = split(p, '/');
    lemma_split_parts(p, '/', 0);
    lemma_last_comp(ps, ps.len() as int);
    let l = last_comp_before(ps, ps.len() as int);
    assert(crate::round_trip::free_of(ps[l], '/'));
}

/// Every source path with a file name has a gloss path, and the source of
/// that gloss is the same path, component by component.
pub proof fn lemma_gloss_path_inverse(s: Seq<char>)
    requires
        gloss_path_spec(s) is Ok,
    ensures
        source_path_spec(gloss_path_spec(s)->Ok_0) is Ok,
        same_path(source_path_spec(gloss_path_spec(s)->Ok_0)->Ok_0, s),
{
    reveal_strlit(".gloss");
    let name = path_file_name(s)->Some_0;
    lemma_file_name_plain(s);
    lemma_gloss_name(name);
    let q = path_parent(s)->Some_0;
    let cs = components(s);
    lemma_file_name_components(s);
    lemma_parent_components(s);
    let dir = path_join(q, ".gloss"@);
    let gname = name + ".gloss"@;
    let g = path_join(dir, gname);
    assert(gloss_path_spec(s) == Ok::<Seq<char>, ErrorView>(g));
    lemma_join_components(q, ".gloss"@);
    lemma_join_components(dir, gname);
    let cg = components(g);
    assert(cg == cs.drop_last().push(".gloss"@).push(gname));
    lemma_file_name_components(g);
    lemma_parent_components(g);
    assert(cg.len() > 0);
    lemma_plain_not_root(gname);
    lemma_plain_not_root(".gloss"@);
    assert(path_file_name(g) == Some(gname));
    lemma_file_name_plain(g);
    let gdir = path_parent(g)->Some_0;
    assert(components(gdir) =~= cs.drop_last().push(".gloss"@));
    lemma_file_name_components(gdir);
    assert(path_file_name(gdir) == Some(".gloss"@));
    lemma_file_name_plain(gdir);
    lemma_parent_components(gdir);
    let pp = path_parent(gdir)->Some_0;
    assert(components(pp) =~= cs.drop_last());
    assert(source_path_spec(g) == Ok::<Seq<char>, ErrorView>(path_join(pp, name)));
    lemma_join_components(pp, name);
    assert(cs.len() > 0);
    assert(cs.drop_last().push(name) =~= cs);
}

/// Every gloss path with a source, whose name is not `..gloss` or
/// `...gloss` (whose source would be `.` or `..`), is the gloss path of that
/// source, component by component.
pub proof fn lemma_source_path_inverse(g: Seq<char>)
    requires
        source_path_spec(g) is Ok,
        path_file_name(g) != Some("..gloss"@),
        path_file_name(g) != Some("...gloss"@),
    ensures
        gloss_path_spec(source_path_spec(g)->Ok_0) is Ok,
        same_path(gloss_path_spec(source_path_spec(g)->Ok_0)->Ok_0, g),
{
    reveal_strlit(".gloss");
    reveal_strlit("..gloss");
    reveal_strlit("...gloss");
    reveal_strlit(".");
    reveal_strlit("..");
    let cg = components(g);
    lemma_parent_components(g);
    let gdir = path_parent(g)->Some_0;
    lemma_file_name_components(gdir);
    lemma_file_name_plain(gdir);
    lemma_parent_components(gdir);
    let pp = path_parent(gdir)->Some_0;
    let gname = path_file_name(g)->Some_0;
    lemma_file_name_components(g);
    lemma_file_name_plain(g);
    let src = strip_suffix(gname, ".gloss"@)->Some_0;
    let s = path_join(pp, src);
    assert(source_path_spec(g) == Ok::<Seq<char>, ErrorView>(s));
    assert(gname =~= src + ".gloss"@);
    assert(crate::round_trip::free_of(src, '/')) by {
        assert forall|j: int| 0 <= j < src.len() implies src[j] != '/' by {
            assert(src[j] == gname[j]);
        }
    }
    assert(src != "."@) by {
        if src == "."@ {
            assert(gname =~= "..gloss"@);
        }
    }
    assert(src != ".."@) by {
        if src == ".."@ {
            assert(gname =~= "...gloss"@);
        }
    }
    assert(plain_piece(src));
    lemma_join_components(pp, src);
    let cs = components(s);
    assert(cs == cg.drop_last().drop_last().push(src));
    lemma_file_name_components(s);
    lemma_plain_not_root(src);
    assert(path_file_name(s) == Some(src));
    lemma_file_name_plain(s);
    lemma_parent_components(s);
    let q = path_parent(s)->Some_0;
    lemma_gloss_name(src);
    lemma_join_components(q, ".gloss"@);
    lemma_join_components(path_join(q, ".gloss"@), gname);
    assert(cg.len() >= 2);
    assert(cg.drop_last().last() == ".gloss"@);
    assert(cg.last() == gname);
    assert(components(gloss_path_spec(s)->Ok_0) =~= cg);
}

/// The texts of some strings.
pub open spec fn texts(v: Seq<String>) -> Seq<Seq<char>> {
    v.map_values(|s: String| s@)
}

/// A path with each `/` turned into the NUL character, the least of all.
pub open spec fn path_key(p: Seq<char>) -> Seq<char> {
    p.map_values(|c: char| if c == '/' { '\0' } else { c })
}

/// The order that `Path` gives relative paths without empty components:
/// component by component, each compared character by character. Text
/// order with `/` below every other character is the same order.
pub open spec fn path_le(a: Seq<char>, b: Seq<char>) -> bool {
    crate::format::label_le(path_key(a), path_key(b))
}

/// Ascending in `Path` order, without repeats.
pub open spec fn paths_sorted(s: Seq<Seq<char>>) -> bool {
    forall|i: int, j: int|
        0 <= i < j < s.len() ==> path_le(#[trigger] s[i], #[trigger] s[j]) && s[i] != s[j]
}

fn path_key_of(p: &str) -> (r: Vec<char>)
    ensures
        r@ == path_key(p@),
{
    let cs = chars_of(p);
    let mut r: Vec<char> = Vec::new();
    let mut i: usize = 0;
    while i < cs.len()
        invariant
            cs@ == p@,
            i <= cs@.len(),
            r@ == path_key(cs@.take(i as int)),
        decreases cs@.len() - i,
    {
        let c = cs[i];
        r.push(if c == '/' { '\0' } else { c });
        proof {
            assert(path_key(cs@.take(i + 1)) =~= path_key(cs@.take(i as int)).push(
                if c == '/' { '\0' } else { c },
            ));
        }
        i = i + 1;
    }
    proof {
        assert(cs@.take(cs@.len() as int) =~= cs@);
    }
    r
}

fn path_le_of(a: &str, b: &str) -> (r: bool)
    ensures
        r == path_le(a@, b@),
{
    crate::format::label_le_of(&path_key_of(a), &path_key_of(b))
}

fn has_string(v: &Vec<String>, s: &str) -> (b: bool)
    ensures
        b == texts(v@).contains(s@),
{
    let ghost vv = texts(v@);
    let sc = chars_of(s);
    let mut i: usize = 0;
    while i < v.len()
        invariant
            vv == texts(v@),
            sc@ == s@,
            i <= v@.len(),
            forall|j: int| 0 <= j < i ==> vv[j] != s@,
        decreases v@.len() - i,
    {
        if crate::text::eq_chars(&chars_of(v[i].as_str()), &sc) {
            proof {
                assert(vv[i as int] == s@);
            }
            return true;
        }
        i = i + 1;
    }
    false
}

/// The paths in `Path` order, each once, as `lint` and `update` visit gloss
/// files.
pub fn sort_paths(paths: &Vec<String>) -> (r: Vec<String>)
    ensures
        paths_sorted(texts(r@)),
        forall|x: Seq<char>| #[trigger] texts(r@).contains(x)
            <==> texts(paths@).contains(x),
{
    let ghost pv = texts(paths@);
    let mut r: Vec<String> = Vec::new();
    let mut i: usize = 0;
    while i < paths.len()
        invariant
            pv == texts(paths@),
            i <= paths@.len(),
            paths_sorted(texts(r@)),
            forall|x: Seq<char>| #[trigger] texts(r@).contains(x)
                <==> pv.take(i as int).contains(x),
        decreases paths@.len() - i,
    {
        let ghost before = texts(r@);
        let x = paths[i].as_str();
        proof {
            assert(pv[i as int] == x@);
            assert(pv.take(i + 1) =~= pv.take(i as int).push(x@));
        }
        if has_string(&r, x) {
            proof {
                assert forall|y: Seq<char>| #[trigger] texts(r@).contains(y)
                    <==> pv.take(i + 1).contains(y) by {
                    if y == x@ {
                        assert(pv.take(i + 1)[i as int] == y);
                    }
                    if pv.take(i + 1).contains(y) && y != x@ {
                        let k = choose|k: int| 0 <= k < pv.take(i + 1).len() && #[trigger] pv.take(i + 1)[k] == y;
                        assert(k < i);
                        assert(pv.take(i as int)[k] == y);
                    }
                }
            }
        } else {
            let mut p: usize = 0;
            while p < r.len() && !path_le_of(x, r[p].as_str())
                invariant
                    before == texts(r@),
                    p <= r@.len(),
                    forall|j: int| 0 <= j < p ==> !path_le(x@, #[trigger] before[j]),
                decreases r@.len() - p,
            {
                proof {
                    assert(before[p as int] == r@[p as int]@);
                }
                p = p + 1;
            }
            proof {
                if p < r@.len() {
                    assert(before[p as int] == r@[p as int]@);
                    assert(path_le(x@, before[p as int]));
                }
            }
            r.insert(p, paths[i].clone());
            proof {
                let after = texts(r@);
                assert(after =~= before.insert(p as int, x@));
                assert forall|a: int, b: int| 0 <= a < b < after.len() implies path_le(
                    #[trigger] after[a],
                    #[trigger] after[b],
                ) && after[a] != after[b] by {
                    if a < p && b == p {
                        crate::round_trip::lemma_label_le_total(path_key(x@), path_key(before[a]));
                        assert(before.contains(before[a]));
                    } else if a == p {
                        assert(after[b] == before[b - 1]);
                        if b - 1 > p {
                            assert(path_le(before[p as int], before[b - 1]));
                            crate::round_trip::lemma_label_le_trans(
                                path_key(x@),
                                path_key(before[p as int]),
                                path_key(before[b - 1]),
                            );
                        }
                        assert(before.contains(before[b - 1]));
                    } else if a < p && b > p {
                        assert(after[a] == before[a] && after[b] == before[b - 1]);
                    } else if b < p {
                        assert(after[a] == before[a] && after[b] == before[b]);
                    } else {
                        assert(after[a] == before[a - 1] && after[b] == before[b - 1]);
                    }
                }
                assert forall|y: Seq<char>| #[trigger] after.contains(y) <==> pv.take(i + 1).contains(y) by {
                    if after.contains(y) {
                        let k = choose|k: int| 0 <= k < after.len() && #[trigger] after[k] == y;
                        if k < p {
                            assert(before[k] == y);
                        } else if k > p {
                            assert(before[k - 1] == y);
                        }
                        if y != x@ {
                            assert(before.contains(y));
                            let m = choose|m: int| 0 <= m < pv.take(i as int).len() && #[trigger] pv.take(i as int)[m] == y;
                            assert(pv.take(i + 1)[m] == y);
                        } else {
                            assert(pv.take(i + 1)[i as int] == y);
                        }
                    }
                    if pv.take(i + 1).contains(y) {
                        if y == x@ {
                            assert(after[p as int] == y);
                        } else {
                            let k = choose|k: int| 0 <= k < pv.take(i + 1).len() && #[trigger] pv.take(i + 1)[k] == y;
                            assert(k < i);
                            assert(pv.take(i as int)[k] == y);
                            assert(before.contains(y));
                            let m = choose|m: int| 0 <= m < before.len() && #[trigger] before[m] == y;
                            if m < p {
                                assert(after[m] == y);
                            } else {
                                assert(after[m + 1] == y);
                            }
                        }
                    }
                }
            }
        }
        i = i + 1;
    }
    proof {
        assert(pv.take(paths@.len() as int) =~= pv);
    }
    r
}
} // verus!
