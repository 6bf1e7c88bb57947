use gloss::editor::{editor_targets, merge_settings, merge_sublime, merge_vscode, merge_zed, EditorInstallPlan, Json, PlannedFile, SettingsKind};
use gloss::error::ErrorCode;

const PATTERN: &str = "**/.gloss/**/*.gloss";

fn s(text: &str) -> Json {
    Json::Str(text.to_owned())
}

fn object(entries: Vec<(&str, Json)>) -> Json {
    Json::Object(entries.into_iter().map(|(k, v)| (k.to_owned(), v)).collect())
}

fn get<'a>(json: &'a Json, key: &str) -> Option<&'a Json> {
    match json {
        Json::Object(entries) => entries.iter().find(|(k, _)| k == key).map(|(_, v)| v),
        _ => None,
    }
}

fn strings(json: &Json) -> Vec<String> {
    match json {
        Json::Array(items) => items
            .iter()
            .filter_map(|item| match item {
                Json::Str(text) => Some(text.clone()),
                _ => None,
            })
            .collect(),
        _ => panic!("not an array"),
    }
}

#[test]
fn vscode_settings_gain_exclusions_and_keep_the_rest() {
    let document = object(vec![
        ("editor.fontSize", Json::Number("15".to_owned())),
        ("files.exclude", object(vec![("**/.cache", Json::Bool(true))])),
    ]);
    let merged = merge_vscode(document, ".vscode/settings.json").unwrap();
    assert!(matches!(get(&merged, "editor.fontSize"), Some(Json::Number(n)) if n == "15"));
    let files = get(&merged, "files.exclude").unwrap();
    assert!(matches!(get(files, "**/.cache"), Some(Json::Bool(true))));
    for key in ["files.exclude", "search.exclude", "files.watcherExclude"] {
        assert!(matches!(get(get(&merged, key).unwrap(), PATTERN), Some(Json::Bool(true))), "{key}");
    }
    let again = merge_vscode(merged, ".vscode/settings.json").unwrap();
    match again {
        Json::Object(entries) => assert_eq!(entries.len(), 4),
        _ => panic!("not an object"),
    }
}

#[test]
fn vscode_conflicts_are_reported() {
    let conflicting = object(vec![("search.exclude", object(vec![(PATTERN, Json::Bool(false))]))]);
    let error = merge_vscode(conflicting, ".vscode/settings.json").unwrap_err();
    assert_eq!(error.code, ErrorCode::AmbiguousRepair);
    assert_eq!(error.message, "search.exclude already defines a conflicting Gloss exclusion");
    let wrong_type = object(vec![("files.exclude", Json::Array(Vec::new()))]);
    assert_eq!(
        merge_vscode(wrong_type, "x").unwrap_err().message,
        "files.exclude must be a JSON object"
    );
    assert_eq!(
        merge_vscode(Json::Array(Vec::new()), "x").unwrap_err().message,
        "editor settings must be a JSON object"
    );
}

#[test]
fn zed_keeps_its_defaults_when_the_setting_is_new() {
    let merged = merge_zed(object(vec![("theme", s("One Dark"))]), ".zed/settings.json").unwrap();
    let exclusions = strings(get(&merged, "file_scan_exclusions").unwrap());
    assert_eq!(exclusions.len(), 10);
    assert_eq!(exclusions[0], "**/.git");
    assert_eq!(exclusions[9], PATTERN);
    assert!(matches!(get(&merged, "theme"), Some(Json::Str(t)) if t == "One Dark"));
    let existing = object(vec![("file_scan_exclusions", Json::Array(vec![s("**/node_modules")]))]);
    let merged = merge_zed(existing, ".zed/settings.json").unwrap();
    assert_eq!(
        strings(get(&merged, "file_scan_exclusions").unwrap()),
        vec!["**/node_modules".to_owned(), PATTERN.to_owned()]
    );
    let again = merge_zed(merged, ".zed/settings.json").unwrap();
    assert_eq!(strings(get(&again, "file_scan_exclusions").unwrap()).len(), 2);
    let wrong = object(vec![("file_scan_exclusions", Json::Null)]);
    assert_eq!(
        merge_zed(wrong, "z").unwrap_err().message,
        "file_scan_exclusions must be a JSON array"
    );
}

#[test]
fn sublime_folders_gain_patterns() {
    let project = object(vec![(
        "folders",
        Json::Array(vec![
            object(vec![("path", s("."))]),
            object(vec![("path", s("sub")), ("file_exclude_patterns", Json::Array(vec![s("*.gloss")]))]),
        ]),
    )]);
    let merged = merge_sublime(project, "x.sublime-project").unwrap();
    match get(&merged, "folders").unwrap() {
        Json::Array(folders) => {
            assert_eq!(folders.len(), 2);
            assert!(matches!(get(&folders[0], "path"), Some(Json::Str(p)) if p == "."));
            assert!(matches!(get(&folders[1], "path"), Some(Json::Str(p)) if p == "sub"));
            for folder in folders {
                assert_eq!(strings(get(folder, "file_exclude_patterns").unwrap()), vec!["*.gloss".to_owned()]);
                assert_eq!(strings(get(folder, "index_exclude_patterns").unwrap()), vec!["*.gloss".to_owned()]);
            }
        }
        _ => panic!("folders is not an array"),
    }
    assert_eq!(
        merge_sublime(object(vec![]), "p").unwrap_err().message,
        "Sublime project must contain a folders array"
    );
    let bad_folder = object(vec![("folders", Json::Array(vec![s("x")]))]);
    assert_eq!(
        merge_sublime(bad_folder, "p").unwrap_err().message,
        "each Sublime folder must be a JSON object"
    );
}

#[test]
fn missing_settings_start_empty() {
    let merged = merge_settings(SettingsKind::VsCodeFamily, None, ".vscode/settings.json").unwrap();
    assert!(get(&merged, "files.exclude").is_some());
    assert_eq!(SettingsKind::Zed.as_str(), "zed");
    let plan = EditorInstallPlan {
        root: "/repo".to_owned(),
        files: vec![PlannedFile {
            editor: "zed".to_owned(),
            relative: ".zed/settings.json".to_owned(),
            contents: "{}\n".to_owned(),
        }],
    };
    assert_eq!(plan.project_files(), vec![".zed/settings.json".to_owned()]);
}

#[test]
fn editor_files_are_planned_in_a_fixed_order() {
    let entries: Vec<String> = ["b.sublime-project", "README.md", "a.sublime-project", ".zed"]
        .iter()
        .map(|name| name.to_string())
        .collect();
    let targets = editor_targets(&entries);
    let relatives: Vec<&str> = targets.iter().map(|t| t.relative.as_str()).collect();
    assert_eq!(
        relatives,
        vec![".ignore", ".vscode/settings.json", ".zed/settings.json", "a.sublime-project", "b.sublime-project"]
    );
    assert_eq!(targets[0].editor, "portable_ignore");
    assert_eq!(targets[0].kind, None);
    assert_eq!(targets[4].kind, Some(SettingsKind::SublimeText));
    assert_eq!(editor_targets(&Vec::new()).len(), 3);
}
