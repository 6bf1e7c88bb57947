use gloss::error::ErrorCode;
use gloss::harness::{
    harness_directory, preflight, relative_target, PathState, SkillInstallPlan, SkillScope,
    TargetState,
};

#[test]
fn harness_directories() {
    assert_eq!(harness_directory("codex"), Some(".codex/skills/gloss"));
    assert_eq!(harness_directory("rovo"), Some(".rovodev/skills/archagent-gloss"));
    assert_eq!(harness_directory("vim"), None);
    assert_eq!(SkillScope::Project.as_str(), "project");
    assert_eq!(SkillScope::User.as_str(), "user");
}

#[test]
fn project_plans_list_their_files() {
    let harnesses = vec!["codex".to_owned(), "grok".to_owned()];
    let plan = SkillInstallPlan::new(SkillScope::Project, "/repo", &harnesses);
    assert_eq!(plan.scope(), SkillScope::Project);
    assert_eq!(plan.canonical_directory(), "/repo/.skills/gloss");
    assert_eq!(plan.targets()[1].directory, "/repo/.grok/skills/gloss");
    assert_eq!(
        plan.project_files(),
        vec![
            ".skills/gloss/SKILL.md",
            ".skills/gloss/agents/openai.yaml",
            ".codex/skills/gloss/SKILL.md",
            ".codex/skills/gloss/agents/openai.yaml",
            ".grok/skills/gloss/SKILL.md",
            ".grok/skills/gloss/agents/openai.yaml",
        ]
    );
    let user = SkillInstallPlan::new(SkillScope::User, "/home/me", &harnesses);
    assert!(user.project_files().is_empty());
}

#[test]
fn links_point_back_to_the_canonical_skill() {
    assert_eq!(
        relative_target("/repo", "/repo/.codex/skills/gloss/SKILL.md", "/repo/.skills/gloss/SKILL.md").unwrap(),
        "../../../.skills/gloss/SKILL.md"
    );
    assert_eq!(
        relative_target(
            "/repo",
            "/repo/.codex/skills/gloss/agents/openai.yaml",
            "/repo/.skills/gloss/agents/openai.yaml"
        )
        .unwrap(),
        "../../../../.skills/gloss/agents/openai.yaml"
    );
    let error = relative_target("/repo", "/else/x/SKILL.md", "/repo/.skills/gloss/SKILL.md").unwrap_err();
    assert_eq!(error.code, ErrorCode::InvalidFormat);
    assert_eq!(error.message, "skill adapter is outside its scope");
    let error = relative_target("/repo", "/repo/x/SKILL.md", "/else/SKILL.md").unwrap_err();
    assert_eq!(error.message, "canonical skill is outside its scope");
}

fn state(skill: PathState, metadata: PathState, directory_nonempty: bool) -> TargetState {
    TargetState { skill, metadata, directory_nonempty }
}

#[test]
fn preflight_refuses_what_setup_does_not_own() {
    let harnesses = vec!["grok".to_owned()];
    let plan = SkillInstallPlan::new(SkillScope::Project, "/repo", &harnesses);
    let absent = || PathState::Absent;
    let run = |canonical: PathState, target: TargetState| {
        preflight(&plan, &canonical, &PathState::Absent, &vec![target], "SKILL", "META")
    };

    let linked = PathState::Link("../../../.skills/gloss/SKILL.md".to_owned());
    assert!(run(absent(), state(linked, absent(), false)).is_ok());
    let managed = PathState::File("x\nmanaged-by: gloss\n".to_owned());
    assert!(run(PathState::File("SKILL".to_owned()), state(managed, absent(), false)).is_ok());

    let stray = PathState::Link("elsewhere".to_owned());
    let error = run(absent(), state(stray, absent(), false)).unwrap_err();
    assert_eq!(error.message, "refusing to overwrite an unmanaged grok skill adapter");

    let other_meta = PathState::File("other".to_owned());
    let error = run(absent(), state(absent(), other_meta, false)).unwrap_err();
    assert_eq!(error.file.as_deref(), Some("/repo/.grok/skills/gloss/agents/openai.yaml"));
    assert!(run(absent(), state(absent(), PathState::File("META".to_owned()), false)).is_ok());

    let error = run(absent(), state(absent(), absent(), true)).unwrap_err();
    assert_eq!(error.message, "refusing to overwrite a non-empty unmanaged grok skill directory");
    assert_eq!(error.file.as_deref(), Some("/repo/.grok/skills/gloss"));

    let error = run(PathState::File("mine".to_owned()), state(absent(), absent(), false)).unwrap_err();
    assert_eq!(error.message, "refusing to overwrite an unmanaged canonical Gloss skill");
    assert_eq!(error.file.as_deref(), Some("/repo/.skills/gloss/SKILL.md"));
    let error = run(PathState::Other, state(absent(), absent(), false)).unwrap_err();
    assert_eq!(error.message, "refusing to replace a non-file in the canonical Gloss skill");
    assert_eq!(error.code, ErrorCode::AmbiguousRepair);
}
