use gloss::error::ErrorCode;
use gloss::setup::{
    hook_script, ignore_contents, managed_hooks, with_attribute_rule, workflow_action, workflow_text,
};

#[test]
fn attribute_rule_is_added_once() {
    let added = with_attribute_rule("*.png binary").unwrap();
    assert_eq!(added, "*.png binary\n**/.gloss/*.gloss linguist-generated=true\n");
    assert_eq!(with_attribute_rule(&added), None);
    assert_eq!(
        with_attribute_rule("").unwrap(),
        "**/.gloss/*.gloss linguist-generated=true\n"
    );
    assert_eq!(with_attribute_rule("  **/.gloss/*.gloss linguist-generated=true  \n"), None);
}

#[test]
fn hooks_keep_a_single_managed_block() {
    let fresh = hook_script(None, "gloss lint --staged");
    assert_eq!(fresh, "#!/bin/sh\n# gloss:start\ngloss lint --staged\n# gloss:end\n");
    assert_eq!(hook_script(Some(&fresh), "gloss lint --staged"), fresh);
    let custom = "#!/bin/sh\necho hi";
    let merged = hook_script(Some(custom), "gloss __post-commit");
    assert_eq!(merged, "#!/bin/sh\necho hi\n# gloss:start\ngloss __post-commit\n# gloss:end\n");
    let again = hook_script(Some(&merged), "gloss __post-commit");
    assert_eq!(again, merged);
    assert_eq!(again.matches("# gloss:start").count(), 1);
    let hooks = managed_hooks();
    assert_eq!(hooks[0], ("pre-commit", "gloss lint --staged"));
    assert_eq!(hooks[2], ("post-rewrite", "gloss __post-rewrite \"$@\""));
}

#[test]
fn ignore_rule_is_managed_in_a_block() {
    let added = ignore_contents("vendor/").unwrap();
    assert_eq!(added, "vendor/\n# gloss:start\n**/.gloss/*.gloss\n# gloss:end\n");
    assert_eq!(ignore_contents(&added).unwrap(), added);
    assert_eq!(ignore_contents("**/.gloss/*.gloss\n").unwrap(), "**/.gloss/*.gloss\n");
    let edited = "# gloss:start\nsomething else\n# gloss:end\n";
    let error = ignore_contents(edited).unwrap_err();
    assert_eq!(error.code, ErrorCode::AmbiguousRepair);
    assert_eq!(error.file.as_deref(), Some(".ignore"));
    let doubled = format!("{added}{added}");
    assert!(ignore_contents(&doubled).is_err());
}

#[test]
fn workflow_is_written_unless_someone_else_owns_it() {
    let workflow = workflow_text("0.1.0");
    assert!(workflow.starts_with("# Managed by `gloss init`."));
    assert!(workflow.contains("--tag v0.1.0 --locked gloss"));
    assert!(workflow.contains("GLOSS_BASE: ${{ github.event.pull_request.base.sha }}"));
    assert_eq!(workflow_action(None, &workflow).unwrap(), true);
    assert_eq!(workflow_action(Some(&workflow), &workflow).unwrap(), false);
    assert_eq!(
        workflow_action(Some("# Managed by `gloss init`. old"), &workflow).unwrap(),
        true
    );
    let error = workflow_action(Some("name: Mine\n"), &workflow).unwrap_err();
    assert_eq!(error.code, ErrorCode::AmbiguousRepair);
    assert_eq!(error.file.as_deref(), Some(".github/workflows/gloss.yml"));
}

#[test]
fn hooks_with_hash_commands_stay_single() {
    let command = "gloss lint --staged # keep quiet";
    let once = hook_script(Some("#!/bin/sh\necho hi\n"), command);
    assert_eq!(hook_script(Some(&once), command), once);
}
