//! Where the Gloss agent skill goes: one canonical copy under `.skills/gloss`
//! and, for each agent harness found, an adapter directory of links to it,
//! at project or user scope.

use vstd::prelude::*;
use crate::error::{error_of, with_file, ErrorCode, ErrorView, GlossError};
use crate::paths::{
    components, components_of, join_of, parent_of, path_join, path_parent, path_strip_prefix,
    strip_prefix_path,
};
use crate::text::{chars_of, eq_str, push_str, seqs_view, string_of};

verus! {

/// Where agent skills are installed.
#[derive(Clone, Copy, Debug, PartialEq, Eq, Structural)]
pub enum SkillScope {
    Project,
    User,
}

pub open spec fn scope_name(s: SkillScope) -> Seq<char> {
    match s {
        SkillScope::Project => "project"@,
        SkillScope::User => "user"@,
    }
}

impl SkillScope {
    pub fn as_str(self) -> (s: &'static str)
        ensures
            s@ == scope_name(self),
    {
        match self {
            SkillScope::Project => "project",
            SkillScope::User => "user",
        }
    }
}

/// The adapter directory of each supported harness, relative to the scope's
/// root.
pub open spec fn harness_dir(harness: Seq<char>) -> Option<Seq<char>> {
    if harness == "codex"@ {
        Some(".codex/skills/gloss"@)
    } else if harness == "cursor"@ {
        Some(".cursor/plugins/local/archagents/skills/gloss"@)
    } else if harness == "grok"@ {
        Some(".grok/skills/gloss"@)
    } else if harness == "rovo"@ {
        Some(".rovodev/skills/archagent-gloss"@)
    } else {
        None
    }
}

pub fn harness_directory(harness: &str) -> (r: Option<&'static str>)
    ensures
        match r {
            Some(d) => harness_dir(harness@) == Some(d@),
            None => harness_dir(harness@) is None,
        },
{
    let h = chars_of(harness);
    if eq_str(&h, "codex") {
        Some(".codex/skills/gloss")
    } else if eq_str(&h, "cursor") {
        Some(".cursor/plugins/local/archagents/skills/gloss")
    } else if eq_str(&h, "grok") {
        Some(".grok/skills/gloss")
    } else if eq_str(&h, "rovo") {
        Some(".rovodev/skills/archagent-gloss")
    } else {
        None
    }
}

/// One harness and the directory its adapter goes to.
#[derive(Debug)]
pub struct SkillTarget {
    pub harness: String,
    pub directory: String,
}

/// The skill installation for one scope: its root and a target per harness.
#[derive(Debug)]
pub struct SkillInstallPlan {
    scope: SkillScope,
    root: String,
    targets: Vec<SkillTarget>,
}

pub struct PlanView {
    pub scope: SkillScope,
    pub root: Seq<char>,
    pub targets: Seq<(Seq<char>, Seq<char>)>,
}

impl View for SkillInstallPlan {
    type V = PlanView;

    closed spec fn view(&self) -> PlanView {
        PlanView {
            scope: self.scope,
            root: self.root@,
            targets: self.targets@.map_values(|t: SkillTarget| (t.harness@, t.directory@)),
        }
    }
}

/// The canonical skill directory of a scope root.
pub open spec fn canonical_dir(root: Seq<char>) -> Seq<char> {
    path_join(root, ".skills/gloss"@)
}

/// The targets for the harnesses found, in order.
pub open spec fn plan_targets(root: Seq<char>, harnesses: Seq<Seq<char>>) -> Seq<(Seq<char>, Seq<char>)> {
    harnesses.map_values(|h: Seq<char>| (h, path_join(root, harness_dir(h)->0)))
}

/// The two files of a skill directory.
pub open spec fn skill_files(dir: Seq<char>) -> Seq<Seq<char>> {
    seq![path_join(dir, "SKILL.md"@), path_join(dir, "agents/openai.yaml"@)]
}

/// The files of the canonical skill and of every adapter, in order.
pub open spec fn all_skill_files(p: PlanView) -> Seq<Seq<char>>
    decreases p.targets.len(),
{
    if p.targets.len() == 0 {
        skill_files(canonical_dir(p.root))
    } else {
        all_skill_files(PlanView { targets: p.targets.drop_last(), ..p }) + skill_files(
            p.targets.last().1,
        )
    }
}

/// The paths relative to `root` of those under it, in order.
pub open spec fn relative_under(files: Seq<Seq<char>>, root: Seq<char>) -> Seq<Seq<char>>
    decreases files.len(),
{
    if files.len() == 0 {
        seq![]
    } else {
        relative_under(files.drop_last(), root) + match path_strip_prefix(files.last(), root) {
            Some(r) => seq![r],
            None => Seq::<Seq<char>>::empty(),
        }
    }
}

/// The files that a project-scope installation adds to the repository;
/// none at user scope.
pub open spec fn project_files_spec(p: PlanView) -> Seq<Seq<char>> {
    if p.scope != SkillScope::Project {
        seq![]
    } else {
        relative_under(all_skill_files(p), p.root)
    }
}

pub open spec fn strings_seq(v: Seq<String>) -> Seq<Seq<char>> {
    v.map_values(|s: String| s@)
}

impl SkillInstallPlan {
    /// The plan for `scope` rooted at `root`, with a target for each harness.
    pub fn new(scope: SkillScope, root: &str, harnesses: &Vec<String>) -> (p: SkillInstallPlan)
        requires
            forall|i: int| 0 <= i < harnesses@.len() ==> harness_dir(#[trigger] harnesses@[i]@) is Some,
        ensures
            p@.scope == scope,
            p@.root == root@,
            p@.targets == plan_targets(root@, strings_seq(harnesses@)),
    {
        let rc = chars_of(root);
        let mut targets: Vec<SkillTarget> = Vec::new();
        let mut i: usize = 0;
        while i < harnesses.len()
            invariant
                rc@ == root@,
                forall|j: int| 0 <= j < harnesses@.len() ==> harness_dir(#[trigger] harnesses@[j]@) is Some,
                i <= harnesses@.len(),
                targets@.map_values(|t: SkillTarget| (t.harness@, t.directory@)) == plan_targets(
                    root@,
                    strings_seq(harnesses@).take(i as int),
                ),
            decreases harnesses@.len() - i,
        {
            let h = &harnesses[i];
            let dir = match harness_directory(h.as_str()) {
                Some(d) => d,
                None => {
                    proof {
                        assert(harness_dir(harnesses@[i as int]@) is Some);
                    }
                    ""
                },
            };
            let directory = string_of(&join_of(&rc, &chars_of(dir)));
            let ghost before = targets@;
            let t = SkillTarget { harness: string_of(&chars_of(h.as_str())), directory };
            targets.push(t);
            proof {
                assert(strings_seq(harnesses@).take(i + 1) =~= strings_seq(harnesses@).take(
                    i as int,
                ).push(h@));
                assert(targets@.map_values(|t: SkillTarget| (t.harness@, t.directory@)) =~= before.map_values(
                    |t: SkillTarget| (t.harness@, t.directory@),
                ).push((h@, path_join(root@, harness_dir(h@)->0))));
                assert(plan_targets(root@, strings_seq(harnesses@).take(i + 1)) =~= plan_targets(
                    root@,
                    strings_seq(harnesses@).take(i as int),
                ).push((h@, path_join(root@, harness_dir(h@)->0))));
            }
            i = i + 1;
        }
        proof {
            assert(strings_seq(harnesses@).take(harnesses@.len() as int) =~= strings_seq(harnesses@));
        }
        SkillInstallPlan { scope, root: string_of(&rc), targets }
    }

    /// The directory that the skill paths are rooted in: the repository or
    /// the home directory.
    pub fn root(&self) -> (r: &str)
        ensures
            r@ == self@.root,
    {
        self.root.as_str()
    }

    pub fn scope(&self) -> (s: SkillScope)
        ensures
            s == self@.scope,
    {
        self.scope
    }

    /// Where the canonical skill goes.
    pub fn canonical_directory(&self) -> (d: String)
        ensures
            d@ == canonical_dir(self@.root),
    {
        string_of(&join_of(&chars_of(self.root.as_str()), &chars_of(".skills/gloss")))
    }

    /// The harness and adapter directory of each target.
    pub fn targets(&self) -> (t: &Vec<SkillTarget>)
        ensures
            t@.map_values(|t: SkillTarget| (t.harness@, t.directory@)) == self@.targets,
    {
        &self.targets
    }

    /// The files that a project-scope installation adds to the repository,
    /// relative to it.
    pub fn project_files(&self) -> (r: Vec<String>)
        ensures
            strings_seq(r@) == project_files_spec(self@),
    {
        let mut r: Vec<String> = Vec::new();
        if self.scope != SkillScope::Project {
            proof {
                assert(strings_seq(r@) =~= Seq::<Seq<char>>::empty());
            }
            return r;
        }
        let ghost p = self@;
        let root = chars_of(self.root.as_str());
        let canonical = join_of(&root, &chars_of(".skills/gloss"));
        let mut files: Vec<Vec<char>> = Vec::new();
        files.push(join_of(&canonical, &chars_of("SKILL.md")));
        files.push(join_of(&canonical, &chars_of("agents/openai.yaml")));
        proof {
            assert(p.targets.take(0) =~= Seq::<(Seq<char>, Seq<char>)>::empty());
            assert(PlanView { targets: p.targets.take(0), ..p }.targets.len() == 0);
            assert(seqs_view(files@) =~= all_skill_files(PlanView { targets: p.targets.take(0), ..p }));
        }
        let mut i: usize = 0;
        while i < self.targets.len()
            invariant
                p == self@,
                root@ == p.root,
                i <= self.targets@.len(),
                seqs_view(files@) == all_skill_files(PlanView { targets: p.targets.take(i as int), ..p }),
            decreases self.targets@.len() - i,
        {
            let dir = chars_of(self.targets[i].directory.as_str());
            let ghost before = seqs_view(files@);
            files.push(join_of(&dir, &chars_of("SKILL.md")));
            files.push(join_of(&dir, &chars_of("agents/openai.yaml")));
            proof {
                let q = PlanView { targets: p.targets.take(i + 1), ..p };
                assert(q.targets.drop_last() =~= p.targets.take(i as int));
                assert(q.targets.last() == p.targets[i as int]);
                assert(p.targets[i as int].1 == dir@);
                assert(PlanView { targets: q.targets.drop_last(), ..q } == PlanView {
                    targets: p.targets.take(i as int),
                    ..p
                });
                assert(seqs_view(files@) =~= before + skill_files(dir@));
            }
            i = i + 1;
        }
        proof {
            assert(p.targets.take(self.targets@.len() as int) =~= p.targets);
        }
        let ghost fv = seqs_view(files@);
        let mut k: usize = 0;
        proof {
            assert(fv.take(0) =~= Seq::<Seq<char>>::empty());
            assert(strings_seq(r@) =~= relative_under(fv.take(0), p.root));
        }
        while k < files.len()
            invariant
                fv == seqs_view(files@),
                root@ == p.root,
                k <= files@.len(),
                strings_seq(r@) == relative_under(fv.take(k as int), p.root),
            decreases files@.len() - k,
        {
            proof {
                assert(fv.take(k + 1).drop_last() =~= fv.take(k as int));
                assert(fv.take(k + 1).last() == files@[k as int]@);
            }
            let ghost before = r@;
            match strip_prefix_path(&files[k], &root) {
                Some(rel) => {
                    r.push(string_of(&rel));
                    proof {
                        assert(strings_seq(r@) =~= strings_seq(before).push(rel@));
                    }
                },
                None => {
                    proof {
                        assert(strings_seq(r@) =~= strings_seq(before) + Seq::<Seq<char>>::empty());
                    }
                },
            }
            k = k + 1;
        }
        proof {
            assert(fv.take(files@.len() as int) =~= fv);
        }
        r
    }
}

/// `..` repeated `n` times, joined with `/`.
pub open spec fn up_levels(n: nat) -> Seq<char>
    decreases n,
{
    if n == 0 {
        seq![]
    } else {
        path_join(up_levels((n - 1) as nat), ".."@)
    }
}

/// The relative link target from `link` to `source`, both under `root`:
/// one `..` per component of the link's directory below the root, then the
/// source below the root.
pub open spec fn relative_target_spec(root: Seq<char>, link: Seq<char>, source: Seq<char>) -> Result<
    Seq<char>,
    ErrorView,
> {
    let parent = path_parent(link)->0;
    match path_strip_prefix(parent, root) {
        None => Err(
            with_file(
                error_of(ErrorCode::InvalidFormat, "skill adapter is outside its scope"@),
                link,
            ),
        ),
        Some(below) => match path_strip_prefix(source, root) {
            None => Err(
                with_file(
                    error_of(ErrorCode::InvalidFormat, "canonical skill is outside its scope"@),
                    source,
                ),
            ),
            Some(rest) => Ok(path_join(up_levels(components(below).len()), rest)),
        },
    }
}

pub fn relative_target(root: &str, link: &str, source: &str) -> (r: Result<String, GlossError>)
    requires
        path_parent(link@) is Some,
    ensures
        crate::paths::path_result_view(r) == relative_target_spec(root@, link@, source@),
{
    let rc = chars_of(root);
    let parent = match parent_of(&chars_of(link)) {
        Some(p) => p,
        None => Vec::new(),
    };
    let below = match strip_prefix_path(&parent, &rc) {
        Some(b) => b,
        None => {
            return Err(
                GlossError::new(
                    ErrorCode::InvalidFormat,
                    "skill adapter is outside its scope".to_owned(),
                ).file(link),
            );
        },
    };
    let rest = match strip_prefix_path(&chars_of(source), &rc) {
        Some(s) => s,
        None => {
            return Err(
                GlossError::new(
                    ErrorCode::InvalidFormat,
                    "canonical skill is outside its scope".to_owned(),
                ).file(source),
            );
        },
    };
    let comps = components_of(&below);
    let n = comps.len();
    proof {
        assert(seqs_view(comps@).len() == n);
    }
    let mut target: Vec<char> = Vec::new();
    let mut i: usize = 0;
    while i < n
        invariant
            i <= n,
            target@ == up_levels(i as nat),
        decreases n - i,
    {
        target = join_of(&target, &chars_of(".."));
        i = i + 1;
    }
    string_of_ok(join_of(&target, &rest))
}

fn string_of_ok(v: Vec<char>) -> (r: Result<String, GlossError>)
    ensures
        r matches Ok(s) && s@ == v@,
{
    Ok(string_of(&v))
}


/// What setup did for one harness: where its adapter is and whether
/// anything changed.
#[derive(Debug)]
pub struct SkillInstall {
    pub harness: String,
    pub path: String,
    pub changed: bool,
}

/// The marker by which a skill file shows that Gloss manages it.
pub open spec fn ownership_marker() -> Seq<char> {
    "managed-by: gloss"@
}

/// Whether a skill file may be replaced: it carries the ownership marker.
pub fn managed_skill(contents: &str) -> (b: bool)
    ensures
        b == crate::text::contains_str(contents@, ownership_marker()),
{
    let text = chars_of(contents);
    let marker = chars_of("managed-by: gloss");
    crate::text::find_str(&text, &marker, 0) < text.len()
}

/// Whether a file of the canonical skill may be replaced: it already holds
/// what setup writes, or it carries the ownership marker.
pub fn managed_canonical(contents: &str, expected: &str) -> (b: bool)
    ensures
        b == (contents@ == expected@ || crate::text::contains_str(contents@, ownership_marker())),
{
    crate::text::eq_chars(&chars_of(contents), &chars_of(expected)) || managed_skill(contents)
}

/// What setup finds at a path: nothing, a file with these contents, a
/// symbolic link with this target, or something else.
#[derive(Debug)]
pub enum PathState {
    Absent,
    File(String),
    Link(String),
    Other,
}

pub enum PathStateView {
    Absent,
    File(Seq<char>),
    Link(Seq<char>),
    Other,
}

impl View for PathState {
    type V = PathStateView;

    open spec fn view(&self) -> PathStateView {
        match self {
            PathState::Absent => PathStateView::Absent,
            PathState::File(c) => PathStateView::File(c@),
            PathState::Link(t) => PathStateView::Link(t@),
            PathState::Other => PathStateView::Other,
        }
    }
}

/// What setup finds of one harness's adapter: its two files, and whether
/// its directory exists and holds anything.
#[derive(Debug)]
pub struct TargetState {
    pub skill: PathState,
    pub metadata: PathState,
    pub directory_nonempty: bool,
}

pub struct TargetStateView {
    pub skill: PathStateView,
    pub metadata: PathStateView,
    pub directory_nonempty: bool,
}

impl View for TargetState {
    type V = TargetStateView;

    open spec fn view(&self) -> TargetStateView {
        TargetStateView {
            skill: self.skill@,
            metadata: self.metadata@,
            directory_nonempty: self.directory_nonempty,
        }
    }
}

pub open spec fn targets_view(ts: Seq<TargetState>) -> Seq<TargetStateView> {
    ts.map_values(|t: TargetState| t@)
}

/// A file of the canonical skill may be replaced when it is absent, already
/// holds what setup writes, or carries the ownership marker; anything but a
/// file is refused.
pub open spec fn canonical_check(path: Seq<char>, st: PathStateView, expected: Seq<char>) -> Result<
    (),
    ErrorView,
> {
    match st {
        PathStateView::Absent => Ok(()),
        PathStateView::File(c) => if c == expected || crate::text::contains_str(
            c,
            ownership_marker(),
        ) {
            Ok(())
        } else {
            Err(
                with_file(
                    error_of(
                        ErrorCode::AmbiguousRepair,
                        "refusing to overwrite an unmanaged canonical Gloss skill"@,
                    ),
                    path,
                ),
            )
        },
        _ => Err(
            with_file(
                error_of(
                    ErrorCode::AmbiguousRepair,
                    "refusing to replace a non-file in the canonical Gloss skill"@,
                ),
                path,
            ),
        ),
    }
}

/// The error for an adapter file that setup does not manage.
pub open spec fn unmanaged_adapter(harness: Seq<char>, dest: Seq<char>) -> ErrorView {
    with_file(
        error_of(
            ErrorCode::AmbiguousRepair,
            "refusing to overwrite an unmanaged "@ + harness + " skill adapter"@,
        ),
        dest,
    )
}

/// An adapter file may be replaced when it is absent, a link to the
/// canonical file, or a file that setup manages: for `SKILL.md` one with the
/// ownership marker, for the metadata (`Some(text)`) one holding that text.
pub open spec fn adapter_check(
    root: Seq<char>,
    source: Seq<char>,
    dest: Seq<char>,
    harness: Seq<char>,
    st: PathStateView,
    metadata: Option<Seq<char>>,
) -> Result<(), ErrorView> {
    match st {
        PathStateView::Absent => Ok(()),
        PathStateView::Link(t) => match relative_target_spec(root, dest, source) {
            Err(e) => Err(e),
            Ok(x) => if t == x {
                Ok(())
            } else {
                Err(unmanaged_adapter(harness, dest))
            },
        },
        PathStateView::File(c) => if (match metadata {
            Some(m) => c == m,
            None => crate::text::contains_str(c, ownership_marker()),
        }) {
            Ok(())
        } else {
            Err(unmanaged_adapter(harness, dest))
        },
        PathStateView::Other => Err(unmanaged_adapter(harness, dest)),
    }
}

/// An adapter directory without the skill file must be empty.
pub open spec fn directory_check(dir: Seq<char>, harness: Seq<char>, t: TargetStateView) -> Result<
    (),
    ErrorView,
> {
    if t.skill is Absent && t.directory_nonempty {
        Err(
            with_file(
                error_of(
                    ErrorCode::AmbiguousRepair,
                    "refusing to overwrite a non-empty unmanaged "@ + harness + " skill directory"@,
                ),
                dir,
            ),
        )
    } else {
        Ok(())
    }
}

pub open spec fn metadata_file(dir: Seq<char>) -> Seq<char> {
    path_join(dir, "agents/openai.yaml"@)
}

pub open spec fn skill_file(dir: Seq<char>) -> Seq<char> {
    path_join(dir, "SKILL.md"@)
}

/// One harness's adapter: its skill file, its metadata, then its directory.
pub open spec fn target_check(
    p: PlanView,
    target: (Seq<char>, Seq<char>),
    t: TargetStateView,
    metadata_text: Seq<char>,
) -> Result<(), ErrorView> {
    let c = canonical_dir(p.root);
    match adapter_check(p.root, skill_file(c), skill_file(target.1), target.0, t.skill, None) {
        Err(e) => Err(e),
        Ok(()) => match adapter_check(
            p.root,
            metadata_file(c),
            metadata_file(target.1),
            target.0,
            t.metadata,
            Some(metadata_text),
        ) {
            Err(e) => Err(e),
            Ok(()) => directory_check(target.1, target.0, t),
        },
    }
}

/// The first `n` adapters, in order; the first refusal wins.
pub open spec fn targets_check(
    p: PlanView,
    ts: Seq<TargetStateView>,
    metadata_text: Seq<char>,
    n: int,
) -> Result<(), ErrorView>
    decreases n,
{
    if n <= 0 {
        Ok(())
    } else {
        match targets_check(p, ts, metadata_text, n - 1) {
            Err(e) => Err(e),
            Ok(()) => target_check(p, p.targets[n - 1], ts[n - 1], metadata_text),
        }
    }
}

/// Whether setup may write the plan's files: the canonical skill, then its
/// metadata, then every adapter in order; the first refusal wins.
pub open spec fn preflight_spec(
    p: PlanView,
    canonical_skill: PathStateView,
    canonical_metadata: PathStateView,
    ts: Seq<TargetStateView>,
    skill_text: Seq<char>,
    metadata_text: Seq<char>,
) -> Result<(), ErrorView> {
    let c = canonical_dir(p.root);
    match canonical_check(skill_file(c), canonical_skill, skill_text) {
        Err(e) => Err(e),
        Ok(()) => match canonical_check(metadata_file(c), canonical_metadata, metadata_text) {
            Err(e) => Err(e),
            Ok(()) => targets_check(p, ts, metadata_text, ts.len() as int),
        },
    }
}

proof fn lemma_skill_files_have_parents(dir: Seq<char>)
    ensures
        path_parent(skill_file(dir)) is Some,
        path_parent(metadata_file(dir)) is Some,
{
    reveal_strlit("SKILL.md");
    reveal_strlit("openai.yaml");
    reveal_strlit("agents");
    reveal_strlit("agents/openai.yaml");
    reveal_strlit(".");
    reveal_strlit("..");
    assert(crate::round_trip::free_of("SKILL.md"@, '/')) by {
        assert forall|k: int| 0 <= k < "SKILL.md"@.len() implies "SKILL.md"@[k] != '/' by {}
    }
    crate::paths::lemma_join_has_parent(dir, "SKILL.md"@);
    let sub = path_join(dir, "agents"@);
    assert(sub.len() > 0 && sub.last() == 's');
    assert(metadata_file(dir) =~= path_join(sub, "openai.yaml"@));
    assert(crate::round_trip::free_of("openai.yaml"@, '/')) by {
        assert forall|k: int| 0 <= k < "openai.yaml"@.len() implies "openai.yaml"@[k] != '/' by {}
    }
    crate::paths::lemma_join_has_parent(sub, "openai.yaml"@);
}

fn refusal(message: &str, path: &str) -> (e: GlossError)
    ensures
        e@ == with_file(error_of(ErrorCode::AmbiguousRepair, message@), path@),
{
    GlossError::new(ErrorCode::AmbiguousRepair, string_of(&chars_of(message))).file(path)
}

fn about_harness(head: &str, harness: &str, tail: &str) -> (s: String)
    ensures
        s@ == head@ + harness@ + tail@,
{
    let mut m = chars_of(head);
    push_str(&mut m, harness);
    push_str(&mut m, tail);
    string_of(&m)
}

fn canonical_ok(path: &str, st: &PathState, expected: &str) -> (r: Result<(), GlossError>)
    ensures
        crate::format::result_view(r) == canonical_check(path@, st@, expected@),
{
    match st {
        PathState::Absent => Ok(()),
        PathState::File(c) => if managed_canonical(c.as_str(), expected) {
            Ok(())
        } else {
            Err(refusal("refusing to overwrite an unmanaged canonical Gloss skill", path))
        },
        _ => Err(refusal("refusing to replace a non-file in the canonical Gloss skill", path)),
    }
}

fn adapter_ok(
    root: &str,
    source: &str,
    dest: &str,
    harness: &str,
    st: &PathState,
    metadata: Option<&str>,
) -> (r: Result<(), GlossError>)
    requires
        path_parent(dest@) is Some,
    ensures
        crate::format::result_view(r) == adapter_check(
            root@,
            source@,
            dest@,
            harness@,
            st@,
            match metadata {
                Some(m) => Some(m@),
                None => None,
            },
        ),
{
    let unmanaged = GlossError::new(
        ErrorCode::AmbiguousRepair,
        about_harness("refusing to overwrite an unmanaged ", harness, " skill adapter"),
    ).file(dest);
    match st {
        PathState::Absent => Ok(()),
        PathState::Link(t) => {
            let expected = relative_target(root, dest, source)?;
            if crate::text::eq_chars(&chars_of(t.as_str()), &chars_of(expected.as_str())) {
                Ok(())
            } else {
                Err(unmanaged)
            }
        },
        PathState::File(c) => {
            let managed = match metadata {
                Some(m) => crate::text::eq_chars(&chars_of(c.as_str()), &chars_of(m)),
                None => managed_skill(c.as_str()),
            };
            if managed {
                Ok(())
            } else {
                Err(unmanaged)
            }
        },
        PathState::Other => Err(unmanaged),
    }
}

/// Decides whether setup may write the plan's skill files, from what it
/// found at the canonical files and at each adapter (in the plan's order).
pub fn preflight(
    plan: &SkillInstallPlan,
    canonical_skill: &PathState,
    canonical_metadata: &PathState,
    targets: &Vec<TargetState>,
    skill_text: &str,
    metadata_text: &str,
) -> (r: Result<(), GlossError>)
    requires
        targets@.len() == plan@.targets.len(),
    ensures
        crate::format::result_view(r) == preflight_spec(
            plan@,
            canonical_skill@,
            canonical_metadata@,
            targets_view(targets@),
            skill_text@,
            metadata_text@,
        ),
{
    let ghost p = plan@;
    let ghost tv = targets_view(targets@);
    let canonical = chars_of(plan.canonical_directory().as_str());
    let cs = string_of(&join_of(&canonical, &chars_of("SKILL.md")));
    let cm = string_of(&join_of(&canonical, &chars_of("agents/openai.yaml")));
    canonical_ok(cs.as_str(), canonical_skill, skill_text)?;
    canonical_ok(cm.as_str(), canonical_metadata, metadata_text)?;
    let plan_targets = plan.targets();
    let root = plan.root();
    let mut i: usize = 0;
    while i < targets.len()
        invariant
            p == plan@,
            root@ == p.root,
            tv == targets_view(targets@),
            targets@.len() == p.targets.len(),
            plan_targets@.map_values(|t: SkillTarget| (t.harness@, t.directory@)) == p.targets,
            cs@ == skill_file(canonical_dir(p.root)),
            cm@ == metadata_file(canonical_dir(p.root)),
            canonical_check(cs@, canonical_skill@, skill_text@) == Ok::<(), ErrorView>(()),
            canonical_check(cm@, canonical_metadata@, metadata_text@) == Ok::<(), ErrorView>(()),
            i <= targets@.len(),
            targets_check(p, tv, metadata_text@, i as int) == Ok::<(), ErrorView>(()),
        decreases targets@.len() - i,
    {
        let target = &plan_targets[i];
        let state = &targets[i];
        let dir = chars_of(target.directory.as_str());
        let ds = string_of(&join_of(&dir, &chars_of("SKILL.md")));
        let dm = string_of(&join_of(&dir, &chars_of("agents/openai.yaml")));
        proof {
            assert(p.targets[i as int] == (target.harness@, target.directory@));
            assert(tv[i as int] == state@);
            lemma_skill_files_have_parents(target.directory@);
        }
        let r1 = adapter_ok(root, cs.as_str(), ds.as_str(), target.harness.as_str(), &state.skill, None);
        proof {
            assert(ds@ == skill_file(p.targets[i as int].1));
            assert(state.skill@ == tv[i as int].skill);
        }
        if r1.is_err() {
            proof {
                assert(target_check(p, p.targets[i as int], tv[i as int], metadata_text@)
                    == crate::format::result_view(r1));
                assert(targets_check(p, tv, metadata_text@, i + 1) == crate::format::result_view(r1));
                lemma_targets_err_stays(p, tv, metadata_text@, i + 1, targets@.len() as int);
                assert(tv.len() == targets@.len());
            }
            return r1;
        }
        let r2 = adapter_ok(
            root,
            cm.as_str(),
            dm.as_str(),
            target.harness.as_str(),
            &state.metadata,
            Some(metadata_text),
        );
        proof {
            assert(dm@ == metadata_file(p.targets[i as int].1));
            assert(state.metadata@ == tv[i as int].metadata);
        }
        if r2.is_err() {
            proof {
                assert(target_check(p, p.targets[i as int], tv[i as int], metadata_text@)
                    == crate::format::result_view(r2));
                assert(targets_check(p, tv, metadata_text@, i + 1) == crate::format::result_view(r2));
                lemma_targets_err_stays(p, tv, metadata_text@, i + 1, targets@.len() as int);
                assert(tv.len() == targets@.len());
            }
            return r2;
        }
        let skill_absent = match &state.skill {
            PathState::Absent => true,
            _ => false,
        };
        if skill_absent && state.directory_nonempty {
            proof {
                lemma_targets_err_stays(p, tv, metadata_text@, i + 1, targets@.len() as int);
            }
            return Err(
                GlossError::new(
                    ErrorCode::AmbiguousRepair,
                    about_harness(
                        "refusing to overwrite a non-empty unmanaged ",
                        target.harness.as_str(),
                        " skill directory",
                    ),
                ).file(target.directory.as_str()),
            );
        }
        i = i + 1;
    }
    Ok(())
}

proof fn lemma_targets_err_stays(
    p: PlanView,
    ts: Seq<TargetStateView>,
    metadata_text: Seq<char>,
    k: int,
    n: int,
)
    requires
        1 <= k <= n,
        targets_check(p, ts, metadata_text, k) is Err,
    ensures
        targets_check(p, ts, metadata_text, n) == targets_check(p, ts, metadata_text, k),
    decreases n - k,
{
    if n > k {
        lemma_targets_err_stays(p, ts, metadata_text, k, n - 1);
    }
}
} // verus!
