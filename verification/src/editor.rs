//! Project-local editor settings that keep committed glosses out of the way:
//! the managed `.ignore` block (see `setup`), and exclusions merged into the
//! JSON settings of VS Code-like editors, Zed and Sublime Text projects.
//! Existing settings are kept; a setting of the wrong type or a conflicting
//! value is reported rather than overwritten.

use vstd::prelude::*;
use crate::error::{error_of, with_file, ErrorCode, ErrorView, GlossError};
use crate::text::{chars_of, eq_chars, push_str, string_of};

verus! {

/// A JSON value; numbers keep their text.
#[derive(Debug)]
pub enum Json {
    Null,
    Bool(bool),
    Number(String),
    Str(String),
    Array(Vec<Json>),
    Object(Vec<(String, Json)>),
}

pub enum JsonView {
    Null,
    Bool(bool),
    Number(Seq<char>),
    Str(Seq<char>),
    Array(Seq<JsonView>),
    Object(Seq<(Seq<char>, JsonView)>),
}

pub open spec fn json_view(j: Json) -> JsonView
    decreases j,
{
    match j {
        Json::Null => JsonView::Null,
        Json::Bool(b) => JsonView::Bool(b),
        Json::Number(n) => JsonView::Number(n@),
        Json::Str(s) => JsonView::Str(s@),
        Json::Array(v) => JsonView::Array(
            Seq::new(
                v@.len(),
                |i: int|
                    if 0 <= i < v@.len() {
                        json_view(v@[i])
                    } else {
                        JsonView::Null
                    },
            ),
        ),
        Json::Object(v) => JsonView::Object(
            Seq::new(
                v@.len(),
                |i: int|
                    if 0 <= i < v@.len() {
                        (v@[i].0@, json_view(v@[i].1))
                    } else {
                        (Seq::<char>::empty(), JsonView::Null)
                    },
            ),
        ),
    }
}

impl View for Json {
    type V = JsonView;

    open spec fn view(&self) -> JsonView {
        json_view(*self)
    }
}

pub open spec fn items_view(v: Seq<Json>) -> Seq<JsonView> {
    Seq::new(v.len(), |i: int| json_view(v[i]))
}

pub open spec fn entries_view(v: Seq<(String, Json)>) -> Seq<(Seq<char>, JsonView)> {
    Seq::new(v.len(), |i: int| (v[i].0@, json_view(v[i].1)))
}

proof fn lemma_array_view(v: Vec<Json>)
    ensures
        json_view(Json::Array(v)) == JsonView::Array(items_view(v@)),
{
    if let JsonView::Array(s) = json_view(Json::Array(v)) {
        assert(s =~= items_view(v@));
    }
}

proof fn lemma_object_view(v: Vec<(String, Json)>)
    ensures
        json_view(Json::Object(v)) == JsonView::Object(entries_view(v@)),
{
    if let JsonView::Object(s) = json_view(Json::Object(v)) {
        assert(s =~= entries_view(v@));
    }
}

/// Index of the first entry with key `k`, or the number of entries.
pub open spec fn key_index(es: Seq<(Seq<char>, JsonView)>, k: Seq<char>) -> int
    decreases es.len(),
{
    if es.len() == 0 {
        0
    } else if es[0].0 == k {
        0
    } else {
        1 + key_index(es.drop_first(), k)
    }
}

pub proof fn lemma_key_index(es: Seq<(Seq<char>, JsonView)>, k: Seq<char>)
    ensures
        0 <= key_index(es, k) <= es.len(),
        forall|j: int| 0 <= j < key_index(es, k) ==> es[j].0 != k,
        key_index(es, k) < es.len() ==> es[key_index(es, k)].0 == k,
    decreases es.len(),
{
    if es.len() > 0 && es[0].0 != k {
        lemma_key_index(es.drop_first(), k);
        assert forall|j: int| 0 <= j < key_index(es, k) implies es[j].0 != k by {
            if j > 0 {
                assert(es[j] == es.drop_first()[j - 1]);
            }
        }
    }
}

/// The value of the first entry with key `k`.
pub open spec fn obj_get(es: Seq<(Seq<char>, JsonView)>, k: Seq<char>) -> Option<JsonView> {
    let i = key_index(es, k);
    if i < es.len() {
        Some(es[i].1)
    } else {
        None
    }
}

/// The entries with the value of key `k` replaced in place, or appended
/// when there is no such key.
pub open spec fn obj_set(es: Seq<(Seq<char>, JsonView)>, k: Seq<char>, v: JsonView) -> Seq<
    (Seq<char>, JsonView),
> {
    let i = key_index(es, k);
    if i < es.len() {
        es.update(i, (k, v))
    } else {
        es.push((k, v))
    }
}

/// Whether some item is the string `s`.
pub open spec fn has_str(items: Seq<JsonView>, s: Seq<char>) -> bool {
    exists|i: int| 0 <= i < items.len() && items[i] == JsonView::Str(s)
}

/// The error for settings that cannot be merged safely.
pub open spec fn conflict(path: Seq<char>, message: Seq<char>) -> ErrorView {
    with_file(error_of(ErrorCode::AmbiguousRepair, message), path)
}

/// The exclusion pattern that matches committed glosses.
pub open spec fn gloss_pattern() -> Seq<char> {
    "**/.gloss/**/*.gloss"@
}

fn conflict_error(path: &str, message: String) -> (e: GlossError)
    ensures
        e@ == conflict(path@, message@),
{
    GlossError::new(ErrorCode::AmbiguousRepair, message).file(path)
}

/// Index of the first entry with key `key`, if any.
fn find_key(es: &Vec<(String, Json)>, key: &str) -> (r: Option<usize>)
    ensures
        match r {
            Some(i) => i == key_index(entries_view(es@), key@) && i < es@.len(),
            None => key_index(entries_view(es@), key@) == es@.len(),
        },
{
    let ghost ev = entries_view(es@);
    proof {
        lemma_key_index(ev, key@);
    }
    let kc = chars_of(key);
    let mut i: usize = 0;
    while i < es.len()
        invariant
            ev == entries_view(es@),
            kc@ == key@,
            i <= es@.len(),
            forall|j: int| 0 <= j < i ==> ev[j].0 != key@,
            0 <= key_index(ev, key@) <= ev.len(),
            forall|j: int| 0 <= j < key_index(ev, key@) ==> ev[j].0 != key@,
            key_index(ev, key@) < ev.len() ==> ev[key_index(ev, key@)].0 == key@,
        decreases es@.len() - i,
    {
        proof {
            assert(ev[i as int].0 == es@[i as int].0@);
        }
        if eq_chars(&chars_of(es[i].0.as_str()), &kc) {
            return Some(i);
        }
        i = i + 1;
    }
    None
}

/// Whether some item is the string `s`.
fn contains_str_item(items: &Vec<Json>, s: &str) -> (b: bool)
    ensures
        b == has_str(items_view(items@), s@),
{
    let ghost iv = items_view(items@);
    let sc = chars_of(s);
    let mut i: usize = 0;
    while i < items.len()
        invariant
            iv == items_view(items@),
            sc@ == s@,
            i <= items@.len(),
            forall|j: int| 0 <= j < i ==> iv[j] != JsonView::Str(s@),
        decreases items@.len() - i,
    {
        proof {
            assert(iv[i as int] == json_view(items@[i as int]));
        }
        match &items[i] {
            Json::Str(x) => {
                if eq_chars(&chars_of(x.as_str()), &sc) {
                    return true;
                }
            },
            _ => {},
        }
        i = i + 1;
    }
    false
}

/// Takes out the value of key `key` (a `Null` is left in its place), with
/// its index.
fn take_value(es: &mut Vec<(String, Json)>, key: &str) -> (r: Option<(usize, Json)>)
    ensures
        match r {
            Some((i, v)) => {
                &&& i == key_index(entries_view(old(es)@), key@)
                &&& i < old(es)@.len()
                &&& v@ == entries_view(old(es)@)[i as int].1
                &&& entries_view(final(es)@) == entries_view(old(es)@).update(
                    i as int,
                    (key@, JsonView::Null),
                )
            },
            None => key_index(entries_view(old(es)@), key@) == old(es)@.len() && final(es)@
                == old(es)@,
        },
{
    match find_key(es, key) {
        None => None,
        Some(i) => {
            let ghost before = es@;
            let (k, v) = es.remove(i);
            es.insert(i, (k, Json::Null));
            proof {
                lemma_key_index(entries_view(before), key@);
                assert(es@ =~= before.update(i as int, (before[i as int].0, Json::Null)));
                assert(entries_view(es@) =~= entries_view(before).update(
                    i as int,
                    (key@, JsonView::Null),
                ));
            }
            Some((i, v))
        },
    }
}

/// Puts `value` back at index `i` under key `key`.
fn put_value(es: &mut Vec<(String, Json)>, i: usize, key: &str, value: Json)
    requires
        i < old(es)@.len(),
    ensures
        entries_view(final(es)@) == entries_view(old(es)@).update(i as int, (key@, value@)),
{
    let ghost before = es@;
    let ghost vv = value@;
    es.set(i, (string_of(&chars_of(key)), value));
    proof {
        assert(entries_view(es@) =~= entries_view(before).update(i as int, (key@, vv)));
    }
}

/// Appends `value` under key `key`.
fn push_value(es: &mut Vec<(String, Json)>, key: &str, value: Json)
    ensures
        entries_view(final(es)@) == entries_view(old(es)@).push((key@, value@)),
{
    let ghost before = es@;
    let ghost vv = value@;
    es.push((string_of(&chars_of(key)), value));
    proof {
        assert(entries_view(es@) =~= entries_view(before).push((key@, vv)));
    }
}

/// One exclusion map of VS Code-like settings with the gloss pattern set to
/// `true`: an error when the setting is not an object or already gives the
/// pattern another value.
pub open spec fn vscode_key_spec(es: Seq<(Seq<char>, JsonView)>, key: Seq<char>, path: Seq<char>) -> Result<
    Seq<(Seq<char>, JsonView)>,
    ErrorView,
> {
    let current = match obj_get(es, key) {
        Some(v) => v,
        None => JsonView::Object(seq![]),
    };
    match current {
        JsonView::Object(ex) => match obj_get(ex, gloss_pattern()) {
            Some(JsonView::Bool(true)) => Ok(obj_set(es, key, JsonView::Object(ex))),
            Some(_) => Err(conflict(path, key + " already defines a conflicting Gloss exclusion"@)),
            None => Ok(
                obj_set(
                    es,
                    key,
                    JsonView::Object(obj_set(ex, gloss_pattern(), JsonView::Bool(true))),
                ),
            ),
        },
        _ => Err(conflict(path, key + " must be a JSON object"@)),
    }
}

/// VS Code, Cursor and Windsurf settings with glosses excluded from the file
/// tree, search and the file watcher.
pub open spec fn merge_vscode_spec(doc: JsonView, path: Seq<char>) -> Result<JsonView, ErrorView> {
    match doc {
        JsonView::Object(es) => match vscode_key_spec(es, "files.exclude"@, path) {
            Err(e) => Err(e),
            Ok(es1) => match vscode_key_spec(es1, "search.exclude"@, path) {
                Err(e) => Err(e),
                Ok(es2) => match vscode_key_spec(es2, "files.watcherExclude"@, path) {
                    Err(e) => Err(e),
                    Ok(es3) => Ok(JsonView::Object(es3)),
                },
            },
        },
        _ => Err(conflict(path, "editor settings must be a JSON object"@)),
    }
}

pub open spec fn json_result_view(r: Result<Json, GlossError>) -> Result<JsonView, ErrorView> {
    match r {
        Ok(j) => Ok(j@),
        Err(e) => Err(e@),
    }
}

fn message_with(key: &str, tail: &str) -> (s: String)
    ensures
        s@ == key@ + tail@,
{
    let mut m = chars_of(key);
    push_str(&mut m, tail);
    string_of(&m)
}

fn vscode_key(es: &mut Vec<(String, Json)>, key: &str, path: &str) -> (r: Result<(), GlossError>)
    ensures
        match r {
            Ok(()) => vscode_key_spec(entries_view(old(es)@), key@, path@) == Ok::<
                Seq<(Seq<char>, JsonView)>,
                ErrorView,
            >(entries_view(final(es)@)),
            Err(e) => vscode_key_spec(entries_view(old(es)@), key@, path@) == Err::<
                Seq<(Seq<char>, JsonView)>,
                ErrorView,
            >(e@),
        },
{
    let ghost ev = entries_view(es@);
    proof {
        lemma_key_index(ev, key@);
    }
    let taken = take_value(es, key);
    let (index, current) = match taken {
        Some((i, v)) => (Some(i), v),
        None => {
            let empty: Vec<(String, Json)> = Vec::new();
            proof {
                lemma_object_view(empty);
                assert(entries_view(empty@) =~= Seq::<(Seq<char>, JsonView)>::empty());
            }
            (None, Json::Object(empty))
        },
    };
    let mut ex = match current {
        Json::Object(ex) => {
            proof {
                lemma_object_view(ex);
            }
            ex
        },
        other => {
            return Err(conflict_error(path, message_with(key, " must be a JSON object")));
        },
    };
    let ghost exv = entries_view(ex@);
    proof {
        lemma_key_index(exv, gloss_pattern());
    }
    match find_key(&ex, "**/.gloss/**/*.gloss") {
        Some(j) => {
            let ok = match &ex[j].1 {
                Json::Bool(b) => *b,
                _ => false,
            };
            if !ok {
                return Err(
                    conflict_error(
                        path,
                        message_with(key, " already defines a conflicting Gloss exclusion"),
                    ),
                );
            }
        },
        None => {
            push_value(&mut ex, "**/.gloss/**/*.gloss", Json::Bool(true));
        },
    }
    let ghost exv2 = entries_view(ex@);
    let value = Json::Object(ex);
    proof {
        lemma_object_view(ex);
        assert(value@ == JsonView::Object(exv2));
    }
    match index {
        Some(i) => {
            proof {
                assert(entries_view(es@).len() == es@.len());
            }
            put_value(es, i, key, value);
            proof {
                assert(ev.update(i as int, (key@, JsonView::Null)).update(i as int, (key@, value@))
                    =~= ev.update(i as int, (key@, value@)));
            }
        },
        None => {
            push_value(es, key, value);
        },
    }
    Ok(())
}

/// Merges the gloss exclusions into VS Code-like settings.
pub fn merge_vscode(document: Json, path: &str) -> (r: Result<Json, GlossError>)
    ensures
        json_result_view(r) == merge_vscode_spec(document@, path@),
{
    let mut es = match document {
        Json::Object(es) => {
            proof {
                lemma_object_view(es);
            }
            es
        },
        _ => {
            return Err(
                conflict_error(path, "editor settings must be a JSON object".to_owned()),
            );
        },
    };
    vscode_key(&mut es, "files.exclude", path)?;
    vscode_key(&mut es, "search.exclude", path)?;
    vscode_key(&mut es, "files.watcherExclude", path)?;
    let ghost ev = entries_view(es@);
    let r = Json::Object(es);
    proof {
        lemma_object_view(es);
    }
    Ok(r)
}


/// Appends the string `s`.
fn push_str_item(items: &mut Vec<Json>, s: &str)
    ensures
        items_view(final(items)@) == items_view(old(items)@).push(JsonView::Str(s@)),
{
    let ghost before = items@;
    items.push(Json::Str(string_of(&chars_of(s))));
    proof {
        assert(items_view(items@) =~= items_view(before).push(JsonView::Str(s@)));
    }
}

/// Zed's own file-scan exclusions, which a new setting must repeat.
pub open spec fn zed_defaults() -> Seq<Seq<char>> {
    seq![
        "**/.git"@,
        "**/.svn"@,
        "**/.hg"@,
        "**/.jj"@,
        "**/CVS"@,
        "**/.DS_Store"@,
        "**/Thumbs.db"@,
        "**/.classpath"@,
        "**/.settings"@,
    ]
}

pub open spec fn strs_view(ss: Seq<Seq<char>>) -> Seq<JsonView> {
    ss.map_values(|s: Seq<char>| JsonView::Str(s))
}

/// Zed settings with glosses excluded from file scans; a new exclusion
/// setting starts from Zed's defaults.
pub open spec fn merge_zed_spec(doc: JsonView, path: Seq<char>) -> Result<JsonView, ErrorView> {
    match doc {
        JsonView::Object(es) => {
            let key = "file_scan_exclusions"@;
            let new_setting = obj_get(es, key) is None;
            let current = match obj_get(es, key) {
                Some(v) => v,
                None => JsonView::Array(seq![]),
            };
            match current {
                JsonView::Array(items) => {
                    let items1 = if new_setting {
                        items + strs_view(zed_defaults())
                    } else {
                        items
                    };
                    let items2 = if has_str(items1, gloss_pattern()) {
                        items1
                    } else {
                        items1.push(JsonView::Str(gloss_pattern()))
                    };
                    Ok(JsonView::Object(obj_set(es, key, JsonView::Array(items2))))
                },
                _ => Err(conflict(path, "file_scan_exclusions must be a JSON array"@)),
            }
        },
        _ => Err(conflict(path, "editor settings must be a JSON object"@)),
    }
}

fn zed_default_list() -> (r: Vec<&'static str>)
    ensures
        r@.map_values(|s: &str| s@) == zed_defaults(),
{
    let r = vec![
        "**/.git",
        "**/.svn",
        "**/.hg",
        "**/.jj",
        "**/CVS",
        "**/.DS_Store",
        "**/Thumbs.db",
        "**/.classpath",
        "**/.settings",
    ];
    proof {
        assert(r@.map_values(|s: &str| s@) =~= zed_defaults());
    }
    r
}

/// Merges the gloss exclusion into Zed settings.
pub fn merge_zed(document: Json, path: &str) -> (r: Result<Json, GlossError>)
    ensures
        json_result_view(r) == merge_zed_spec(document@, path@),
{
    let mut es = match document {
        Json::Object(es) => {
            proof {
                lemma_object_view(es);
            }
            es
        },
        _ => {
            return Err(
                conflict_error(path, "editor settings must be a JSON object".to_owned()),
            );
        },
    };
    let ghost ev = entries_view(es@);
    let key = "file_scan_exclusions";
    proof {
        lemma_key_index(ev, key@);
    }
    let taken = take_value(&mut es, key);
    let new_setting = taken.is_none();
    let (index, current) = match taken {
        Some((i, v)) => (Some(i), v),
        None => {
            let empty: Vec<Json> = Vec::new();
            proof {
                lemma_array_view(empty);
                assert(items_view(empty@) =~= Seq::<JsonView>::empty());
            }
            (None, Json::Array(empty))
        },
    };
    let mut items = match current {
        Json::Array(items) => {
            proof {
                lemma_array_view(items);
            }
            items
        },
        _ => {
            return Err(
                conflict_error(path, "file_scan_exclusions must be a JSON array".to_owned()),
            );
        },
    };
    let ghost iv0 = items_view(items@);
    if new_setting {
        let defaults = zed_default_list();
        let mut k: usize = 0;
        while k < defaults.len()
            invariant
                defaults@.map_values(|s: &str| s@) == zed_defaults(),
                k <= defaults@.len(),
                items_view(items@) == iv0 + strs_view(zed_defaults().take(k as int)),
            decreases defaults@.len() - k,
        {
            push_str_item(&mut items, defaults[k]);
            proof {
                assert(zed_defaults()[k as int] == defaults@[k as int]@);
                assert(strs_view(zed_defaults().take(k + 1)) =~= strs_view(zed_defaults().take(
                    k as int,
                )).push(JsonView::Str(defaults@[k as int]@)));
            }
            k = k + 1;
        }
        proof {
            assert(zed_defaults().take(9) =~= zed_defaults());
        }
    } else {
        proof {
            assert(items_view(items@) =~= iv0);
        }
    }
    if !contains_str_item(&items, "**/.gloss/**/*.gloss") {
        push_str_item(&mut items, "**/.gloss/**/*.gloss");
    }
    let ghost iv2 = items_view(items@);
    let value = Json::Array(items);
    proof {
        lemma_array_view(items);
    }
    match index {
        Some(i) => {
            proof {
                assert(entries_view(es@).len() == es@.len());
            }
            put_value(&mut es, i, key, value);
            proof {
                assert(ev.update(i as int, (key@, JsonView::Null)).update(i as int, (key@, value@))
                    =~= ev.update(i as int, (key@, value@)));
            }
        },
        None => {
            push_value(&mut es, key, value);
        },
    }
    let r = Json::Object(es);
    proof {
        lemma_object_view(es);
    }
    Ok(r)
}

/// One pattern list of a Sublime folder with `*.gloss` in it.
pub open spec fn sublime_patterns_spec(
    fes: Seq<(Seq<char>, JsonView)>,
    key: Seq<char>,
    path: Seq<char>,
) -> Result<Seq<(Seq<char>, JsonView)>, ErrorView> {
    let current = match obj_get(fes, key) {
        Some(v) => v,
        None => JsonView::Array(seq![]),
    };
    match current {
        JsonView::Array(items) => Ok(
            obj_set(
                fes,
                key,
                JsonView::Array(
                    if has_str(items, "*.gloss"@) {
                        items
                    } else {
                        items.push(JsonView::Str("*.gloss"@))
                    },
                ),
            ),
        ),
        _ => Err(conflict(path, key + " must be a JSON array"@)),
    }
}

/// A Sublime folder with glosses excluded from its files and its index.
pub open spec fn sublime_folder_spec(folder: JsonView, path: Seq<char>) -> Result<JsonView, ErrorView> {
    match folder {
        JsonView::Object(fes) => match sublime_patterns_spec(fes, "file_exclude_patterns"@, path) {
            Err(e) => Err(e),
            Ok(f1) => match sublime_patterns_spec(f1, "index_exclude_patterns"@, path) {
                Err(e) => Err(e),
                Ok(f2) => Ok(JsonView::Object(f2)),
            },
        },
        _ => Err(conflict(path, "each Sublime folder must be a JSON object"@)),
    }
}

/// Every folder merged in order; the first that cannot be gives the error.
pub open spec fn sublime_folders_spec(folders: Seq<JsonView>, path: Seq<char>) -> Result<
    Seq<JsonView>,
    ErrorView,
>
    decreases folders.len(),
{
    if folders.len() == 0 {
        Ok(seq![])
    } else {
        match sublime_folders_spec(folders.drop_last(), path) {
            Err(e) => Err(e),
            Ok(prev) => match sublime_folder_spec(folders.last(), path) {
                Err(e) => Err(e),
                Ok(f) => Ok(prev.push(f)),
            },
        }
    }
}

/// A Sublime project with glosses excluded in every folder.
pub open spec fn merge_sublime_spec(doc: JsonView, path: Seq<char>) -> Result<JsonView, ErrorView> {
    match doc {
        JsonView::Object(es) => match obj_get(es, "folders"@) {
            Some(JsonView::Array(folders)) => match sublime_folders_spec(folders, path) {
                Err(e) => Err(e),
                Ok(fs) => Ok(JsonView::Object(obj_set(es, "folders"@, JsonView::Array(fs)))),
            },
            _ => Err(conflict(path, "Sublime project must contain a folders array"@)),
        },
        _ => Err(conflict(path, "Sublime project must be a JSON object"@)),
    }
}

fn sublime_patterns(fes: &mut Vec<(String, Json)>, key: &str, path: &str) -> (r: Result<
    (),
    GlossError,
>)
    ensures
        match r {
            Ok(()) => sublime_patterns_spec(entries_view(old(fes)@), key@, path@) == Ok::<
                Seq<(Seq<char>, JsonView)>,
                ErrorView,
            >(entries_view(final(fes)@)),
            Err(e) => sublime_patterns_spec(entries_view(old(fes)@), key@, path@) == Err::<
                Seq<(Seq<char>, JsonView)>,
                ErrorView,
            >(e@),
        },
{
    let ghost ev = entries_view(fes@);
    proof {
        lemma_key_index(ev, key@);
    }
    let taken = take_value(fes, key);
    let (index, current) = match taken {
        Some((i, v)) => (Some(i), v),
        None => {
            let empty: Vec<Json> = Vec::new();
            proof {
                lemma_array_view(empty);
                assert(items_view(empty@) =~= Seq::<JsonView>::empty());
            }
            (None, Json::Array(empty))
        },
    };
    let mut items = match current {
        Json::Array(items) => {
            proof {
                lemma_array_view(items);
            }
            items
        },
        _ => {
            return Err(conflict_error(path, message_with(key, " must be a JSON array")));
        },
    };
    if !contains_str_item(&items, "*.gloss") {
        push_str_item(&mut items, "*.gloss");
    }
    let value = Json::Array(items);
    proof {
        lemma_array_view(items);
    }
    match index {
        Some(i) => {
            proof {
                assert(entries_view(fes@).len() == fes@.len());
            }
            put_value(fes, i, key, value);
            proof {
                assert(ev.update(i as int, (key@, JsonView::Null)).update(i as int, (key@, value@))
                    =~= ev.update(i as int, (key@, value@)));
            }
        },
        None => {
            push_value(fes, key, value);
        },
    }
    Ok(())
}

fn sublime_folder(folder: Json, path: &str) -> (r: Result<Json, GlossError>)
    ensures
        json_result_view(r) == sublime_folder_spec(folder@, path@),
{
    let mut fes = match folder {
        Json::Object(fes) => {
            proof {
                lemma_object_view(fes);
            }
            fes
        },
        _ => {
            return Err(
                conflict_error(path, "each Sublime folder must be a JSON object".to_owned()),
            );
        },
    };
    sublime_patterns(&mut fes, "file_exclude_patterns", path)?;
    sublime_patterns(&mut fes, "index_exclude_patterns", path)?;
    let r = Json::Object(fes);
    proof {
        lemma_object_view(fes);
    }
    Ok(r)
}

proof fn lemma_sublime_folders_err(folders: Seq<JsonView>, k: int, path: Seq<char>)
    requires
        0 <= k <= folders.len(),
        sublime_folders_spec(folders.take(k), path) is Err,
    ensures
        sublime_folders_spec(folders, path) == sublime_folders_spec(folders.take(k), path),
    decreases folders.len() - k,
{
    if k < folders.len() {
        assert(folders.take(k + 1).drop_last() =~= folders.take(k));
        lemma_sublime_folders_err(folders, k + 1, path);
    } else {
        assert(folders.take(k) =~= folders);
    }
}

/// Merges the gloss exclusions into a Sublime Text project.
pub fn merge_sublime(document: Json, path: &str) -> (r: Result<Json, GlossError>)
    ensures
        json_result_view(r) == merge_sublime_spec(document@, path@),
{
    let ghost dv = document@;
    let mut es = match document {
        Json::Object(es) => {
            proof {
                lemma_object_view(es);
            }
            es
        },
        _ => {
            return Err(
                conflict_error(path, "Sublime project must be a JSON object".to_owned()),
            );
        },
    };
    let ghost ev = entries_view(es@);
    proof {
        lemma_key_index(ev, "folders"@);
    }
    let taken = take_value(&mut es, "folders");
    let (index, mut folders) = match taken {
        Some((i, Json::Array(folders))) => {
            proof {
                lemma_array_view(folders);
            }
            (i, folders)
        },
        _ => {
            return Err(
                conflict_error(path, "Sublime project must contain a folders array".to_owned()),
            );
        },
    };
    let ghost fv = items_view(folders@);
    proof {
        assert(dv == JsonView::Object(ev));
        assert(obj_get(ev, "folders"@) == Some(JsonView::Array(fv)));
    }
    let mut i: usize = 0;
    proof {
        assert(fv.take(0) =~= Seq::<JsonView>::empty());
        assert(items_view(folders@).take(0) =~= Seq::<JsonView>::empty());
    }
    while i < folders.len()
        invariant
            dv == document@,
            merge_sublime_spec(dv, path@) == match sublime_folders_spec(fv, path@) {
                Err(e) => Err(e),
                Ok(fs) => Ok(JsonView::Object(obj_set(ev, "folders"@, JsonView::Array(fs)))),
            },
            folders@.len() == fv.len(),
            i <= folders@.len(),
            sublime_folders_spec(fv.take(i as int), path@) == Ok::<Seq<JsonView>, ErrorView>(
                items_view(folders@).take(i as int),
            ),
            items_view(folders@).skip(i as int) == fv.skip(i as int),
        decreases folders@.len() - i,
    {
        let ghost before = folders@;
        proof {
            assert(items_view(before)[i as int] == fv[i as int]) by {
                assert(items_view(before).skip(i as int)[0] == fv.skip(i as int)[0]);
            }
            assert(fv.take(i + 1).drop_last() =~= fv.take(i as int));
            assert(fv.take(i + 1).last() == fv[i as int]);
        }
        let folder = folders.remove(i);
        proof {
            assert(folder@ == items_view(before)[i as int]);
        }
        match sublime_folder(folder, path) {
            Err(e) => {
                proof {
                    lemma_sublime_folders_err(fv, i + 1, path@);
                }
                return Err(e);
            },
            Ok(merged) => {
                let ghost mv = merged@;
                folders.insert(i, merged);
                proof {
                    assert(folders@ =~= before.update(i as int, folders@[i as int]));
                    assert(items_view(folders@) =~= items_view(before).update(i as int, mv));
                    assert(items_view(folders@).take(i + 1) =~= items_view(before).take(i as int).push(
                        mv,
                    ));
                    assert(items_view(folders@).skip(i + 1) =~= fv.skip(i + 1)) by {
                        assert forall|j: int| 0 <= j < fv.len() - (i + 1) implies #[trigger] items_view(
                            folders@,
                        ).skip(i + 1)[j] == fv.skip(i + 1)[j] by {
                            assert(items_view(before).skip(i as int)[j + 1] == fv.skip(
                                i as int,
                            )[j + 1]);
                        }
                    }
                }
            },
        }
        i = i + 1;
    }
    proof {
        assert(fv.take(fv.len() as int) =~= fv);
        assert(items_view(folders@).take(fv.len() as int) =~= items_view(folders@));
    }
    let value = Json::Array(folders);
    proof {
        lemma_array_view(folders);
        assert(entries_view(es@).len() == es@.len());
    }
    put_value(&mut es, index, "folders", value);
    proof {
        assert(ev.update(index as int, ("folders"@, JsonView::Null)).update(
            index as int,
            ("folders"@, value@),
        ) =~= ev.update(index as int, ("folders"@, value@)));
    }
    let r = Json::Object(es);
    proof {
        lemma_object_view(es);
    }
    Ok(r)
}

/// The editors whose JSON settings Gloss merges into.
#[derive(Clone, Copy, Debug, PartialEq, Eq, Structural)]
pub enum SettingsKind {
    VsCodeFamily,
    Zed,
    SublimeText,
}

pub open spec fn kind_name(k: SettingsKind) -> Seq<char> {
    match k {
        SettingsKind::VsCodeFamily => "vscode_family"@,
        SettingsKind::Zed => "zed"@,
        SettingsKind::SublimeText => "sublime_text"@,
    }
}

impl SettingsKind {
    /// The name under which the settings file is reported.
    pub fn as_str(self) -> (s: &'static str)
        ensures
            s@ == kind_name(self),
    {
        match self {
            SettingsKind::VsCodeFamily => "vscode_family",
            SettingsKind::Zed => "zed",
            SettingsKind::SublimeText => "sublime_text",
        }
    }
}

/// A settings document after the merge for its editor; a missing file
/// counts as an empty object.
pub open spec fn merge_settings_spec(kind: SettingsKind, existing: Option<JsonView>, path: Seq<char>) -> Result<
    JsonView,
    ErrorView,
> {
    let doc = match existing {
        Some(d) => d,
        None => JsonView::Object(seq![]),
    };
    match kind {
        SettingsKind::VsCodeFamily => merge_vscode_spec(doc, path),
        SettingsKind::Zed => merge_zed_spec(doc, path),
        SettingsKind::SublimeText => merge_sublime_spec(doc, path),
    }
}

pub fn merge_settings(kind: SettingsKind, existing: Option<Json>, path: &str) -> (r: Result<
    Json,
    GlossError,
>)
    ensures
        json_result_view(r) == merge_settings_spec(
            kind,
            match existing {
                Some(d) => Some(d@),
                None => None,
            },
            path@,
        ),
{
    let doc = match existing {
        Some(d) => d,
        None => {
            let empty: Vec<(String, Json)> = Vec::new();
            proof {
                lemma_object_view(empty);
                assert(entries_view(empty@) =~= Seq::<(Seq<char>, JsonView)>::empty());
            }
            Json::Object(empty)
        },
    };
    match kind {
        SettingsKind::VsCodeFamily => merge_vscode(doc, path),
        SettingsKind::Zed => merge_zed(doc, path),
        SettingsKind::SublimeText => merge_sublime(doc, path),
    }
}

/// A settings file that setup will write: for which editor, where (relative
/// to the repository), and its new contents.
#[derive(Debug)]
pub struct PlannedFile {
    pub editor: String,
    pub relative: String,
    pub contents: String,
}

/// What setup did to one settings file.
#[derive(Debug)]
pub struct EditorInstall {
    pub editor: String,
    pub path: String,
    pub changed: bool,
}

/// Every settings file, built in memory first so that a conflict cannot
/// leave a repository half configured.
#[derive(Debug)]
pub struct EditorInstallPlan {
    pub root: String,
    pub files: Vec<PlannedFile>,
}

impl EditorInstallPlan {
    /// The planned files, relative to the repository, in order.
    pub fn project_files(&self) -> (r: Vec<String>)
        ensures
            r@.map_values(|p: String| p@) == self.files@.map_values(|f: PlannedFile| f.relative@),
    {
        let mut r: Vec<String> = Vec::new();
        let mut i: usize = 0;
        while i < self.files.len()
            invariant
                i <= self.files@.len(),
                r@.map_values(|p: String| p@) == self.files@.take(i as int).map_values(
                    |f: PlannedFile| f.relative@,
                ),
            decreases self.files@.len() - i,
        {
            let ghost before = r@;
            let p = string_of(&chars_of(self.files[i].relative.as_str()));
            r.push(p);
            proof {
                assert(r@.map_values(|p: String| p@) =~= before.map_values(|p: String| p@).push(p@));
                assert(self.files@.take(i + 1).map_values(|f: PlannedFile| f.relative@) =~= self.files@.take(
                    i as int,
                ).map_values(|f: PlannedFile| f.relative@).push(self.files@[i as int].relative@));
            }
            i = i + 1;
        }
        proof {
            assert(self.files@.take(self.files@.len() as int) =~= self.files@);
        }
        r
    }
}

/// Setting a key of a JSON object: the key then reads as the new value,
/// every other key reads as before, and setting a key to the value it has
/// changes nothing.
pub proof fn lemma_obj_set_get(es: Seq<(Seq<char>, JsonView)>, k: Seq<char>, v: JsonView, k2: Seq<char>)
    ensures
        obj_get(obj_set(es, k, v), k) == Some(v),
        k2 != k ==> obj_get(obj_set(es, k, v), k2) == obj_get(es, k2),
        obj_get(es, k) == Some(v) ==> obj_set(es, k, v) == es,
{
    lemma_key_index(es, k);
    lemma_key_index(es, k2);
    let t = obj_set(es, k, v);
    lemma_key_index(t, k);
    lemma_key_index(t, k2);
    let i = key_index(es, k);
    assert forall|j: int| 0 <= j < es.len() && j != i implies t[j] == es[j] by {}
    if i < es.len() {
        assert(t[i] == (k, v));
        if key_index(t, k) < i {
            assert(t[key_index(t, k)] == es[key_index(t, k)]);
        }
        if key_index(t, k) > i {
            assert(t[i].0 == k);
        }
    } else {
        assert(t[es.len() as int] == (k, v));
        if key_index(t, k) < es.len() {
            assert(t[key_index(t, k)] == es[key_index(t, k)]);
        }
    }
    if k2 != k {
        let j2 = key_index(es, k2);
        let t2 = key_index(t, k2);
        if t2 < j2 {
            if t2 < es.len() && t2 != i {
                assert(t[t2] == es[t2]);
            }
        }
        if j2 < t2 && j2 < es.len() {
            if j2 != i {
                assert(t[j2] == es[j2]);
            }
        }
        if j2 < es.len() && j2 != i {
            assert(t[j2] == es[j2]);
        }
    }
    if obj_get(es, k) == Some(v) {
        assert(es[i] == (k, v));
        assert(t =~= es);
    }
}

proof fn lemma_vscode_key_again(es: Seq<(Seq<char>, JsonView)>, key: Seq<char>, path: Seq<char>)
    requires
        obj_get(es, key) matches Some(JsonView::Object(ex)) && obj_get(ex, gloss_pattern()) == Some(
            JsonView::Bool(true),
        ),
    ensures
        vscode_key_spec(es, key, path) == Ok::<Seq<(Seq<char>, JsonView)>, ErrorView>(es),
{
    let v = obj_get(es, key)->0;
    lemma_obj_set_get(es, key, v, key);
}

proof fn lemma_vscode_key_result(
    es: Seq<(Seq<char>, JsonView)>,
    key: Seq<char>,
    path: Seq<char>,
    other: Seq<char>,
)
    requires
        vscode_key_spec(es, key, path) is Ok,
    ensures
        ({
            let out = vscode_key_spec(es, key, path)->Ok_0;
            &&& obj_get(out, key) matches Some(JsonView::Object(ex)) && obj_get(ex, gloss_pattern())
                == Some(JsonView::Bool(true))
            &&& other != key ==> obj_get(out, other) == obj_get(es, other)
        }),
{
    let current = match obj_get(es, key) {
        Some(v) => v,
        None => JsonView::Object(seq![]),
    };
    if let JsonView::Object(ex) = current {
        let nv = match obj_get(ex, gloss_pattern()) {
            Some(_) => JsonView::Object(ex),
            None => {
                lemma_obj_set_get(ex, gloss_pattern(), JsonView::Bool(true), gloss_pattern());
                JsonView::Object(obj_set(ex, gloss_pattern(), JsonView::Bool(true)))
            },
        };
        lemma_obj_set_get(es, key, nv, other);
    }
}

/// Merging into VS Code-like settings a second time changes nothing.
pub proof fn lemma_merge_vscode_idempotent(doc: JsonView, path: Seq<char>)
    requires
        merge_vscode_spec(doc, path) is Ok,
    ensures
        merge_vscode_spec(merge_vscode_spec(doc, path)->Ok_0, path) == merge_vscode_spec(doc, path),
{
    reveal_strlit("files.exclude");
    reveal_strlit("search.exclude");
    reveal_strlit("files.watcherExclude");
    let k1 = "files.exclude"@;
    let k2 = "search.exclude"@;
    let k3 = "files.watcherExclude"@;
    assert(k1 != k2 && k1 != k3 && k2 != k3) by {
        assert(k1.len() != k2.len());
        assert(k1.len() != k3.len());
        assert(k2.len() != k3.len());
    }
    if let JsonView::Object(es) = doc {
        let es1 = vscode_key_spec(es, k1, path)->Ok_0;
        let es2 = vscode_key_spec(es1, k2, path)->Ok_0;
        let es3 = vscode_key_spec(es2, k3, path)->Ok_0;
        lemma_vscode_key_result(es, k1, path, k2);
        lemma_vscode_key_result(es1, k2, path, k1);
        lemma_vscode_key_result(es2, k3, path, k1);
        lemma_vscode_key_result(es2, k3, path, k2);
        lemma_vscode_key_again(es3, k1, path);
        lemma_vscode_key_again(es3, k2, path);
        lemma_vscode_key_again(es3, k3, path);
    }
}

/// One exclusion map's other patterns keep their values.
proof fn lemma_vscode_key_keeps(es: Seq<(Seq<char>, JsonView)>, key: Seq<char>, path: Seq<char>, p: Seq<char>)
    requires
        vscode_key_spec(es, key, path) is Ok,
        p != gloss_pattern(),
    ensures
        obj_get(es, key) matches Some(JsonView::Object(ex)) ==> (obj_get(
            vscode_key_spec(es, key, path)->Ok_0,
            key,
        ) matches Some(JsonView::Object(ex2)) && obj_get(ex2, p) == obj_get(ex, p)),
{
    if let Some(JsonView::Object(ex)) = obj_get(es, key) {
        match obj_get(ex, gloss_pattern()) {
            Some(_) => {
                lemma_obj_set_get(es, key, JsonView::Object(ex), key);
            },
            None => {
                let ex2 = obj_set(ex, gloss_pattern(), JsonView::Bool(true));
                lemma_obj_set_get(ex, gloss_pattern(), JsonView::Bool(true), p);
                lemma_obj_set_get(es, key, JsonView::Object(ex2), key);
            },
        }
    }
}

/// Merging into VS Code-like settings keeps what was there: every other
/// setting as it was, and in each of the three exclusion maps every other
/// pattern with its value.
pub proof fn lemma_merge_vscode_keeps_settings(doc: JsonView, path: Seq<char>, k: Seq<char>, p: Seq<char>)
    requires
        merge_vscode_spec(doc, path) is Ok,
    ensures
        ({
            let es = doc->Object_0;
            let out = merge_vscode_spec(doc, path)->Ok_0->Object_0;
            &&& (k != "files.exclude"@ && k != "search.exclude"@ && k != "files.watcherExclude"@)
                ==> obj_get(out, k) == obj_get(es, k)
            &&& (k == "files.exclude"@ || k == "search.exclude"@ || k == "files.watcherExclude"@)
                ==> p != gloss_pattern() ==> (obj_get(es, k) matches Some(JsonView::Object(ex)) ==> (
            obj_get(out, k) matches Some(JsonView::Object(ex3)) && obj_get(ex3, p) == obj_get(ex, p)))
        }),
{
    reveal_strlit("files.exclude");
    reveal_strlit("search.exclude");
    reveal_strlit("files.watcherExclude");
    let k1 = "files.exclude"@;
    let k2 = "search.exclude"@;
    let k3 = "files.watcherExclude"@;
    assert(k1 != k2 && k1 != k3 && k2 != k3) by {
        assert(k1.len() != k2.len());
        assert(k1.len() != k3.len());
        assert(k2.len() != k3.len());
    }
    if let JsonView::Object(es) = doc {
        let es1 = vscode_key_spec(es, k1, path)->Ok_0;
        let es2 = vscode_key_spec(es1, k2, path)->Ok_0;
        lemma_vscode_key_result(es, k1, path, k);
        lemma_vscode_key_result(es1, k2, path, k);
        lemma_vscode_key_result(es2, k3, path, k);
        if p != gloss_pattern() {
            if k == k1 {
                lemma_vscode_key_keeps(es, k1, path, p);
            } else if k == k2 {
                lemma_vscode_key_keeps(es1, k2, path, p);
            } else if k == k3 {
                lemma_vscode_key_keeps(es2, k3, path, p);
            }
        }
    }
}

/// Merging into Zed settings keeps what was there: every other setting as
/// it was, and the exclusions it had, in order, at the front of the list.
pub proof fn lemma_merge_zed_keeps_settings(doc: JsonView, path: Seq<char>, k: Seq<char>)
    requires
        merge_zed_spec(doc, path) is Ok,
    ensures
        ({
            let es = doc->Object_0;
            let out = merge_zed_spec(doc, path)->Ok_0->Object_0;
            &&& k != "file_scan_exclusions"@ ==> obj_get(out, k) == obj_get(es, k)
            &&& obj_get(es, "file_scan_exclusions"@) matches Some(JsonView::Array(items)) ==> (obj_get(
                out,
                "file_scan_exclusions"@,
            ) matches Some(JsonView::Array(items2)) && items2.subrange(0, items.len() as int)
                == items)
        }),
{
    let key = "file_scan_exclusions"@;
    if let JsonView::Object(es) = doc {
        let current = match obj_get(es, key) {
            Some(v) => v,
            None => JsonView::Array(seq![]),
        };
        if let JsonView::Array(items) = current {
            let new_setting = obj_get(es, key) is None;
            let items1 = if new_setting {
                items + strs_view(zed_defaults())
            } else {
                items
            };
            let items2 = if has_str(items1, gloss_pattern()) {
                items1
            } else {
                items1.push(JsonView::Str(gloss_pattern()))
            };
            lemma_obj_set_get(es, key, JsonView::Array(items2), k);
            assert(items2.subrange(0, items.len() as int) =~= items);
        }
    }
}

/// Merging folder by folder keeps the number of folders, and each merged
/// folder is what merging that folder alone gives.
proof fn lemma_sublime_folders_each(folders: Seq<JsonView>, path: Seq<char>)
    requires
        sublime_folders_spec(folders, path) is Ok,
    ensures
        sublime_folders_spec(folders, path)->Ok_0.len() == folders.len(),
        forall|i: int|
            0 <= i < folders.len() ==> sublime_folder_spec(#[trigger] folders[i], path) == Ok::<
                JsonView,
                ErrorView,
            >(sublime_folders_spec(folders, path)->Ok_0[i]),
    decreases folders.len(),
{
    if folders.len() > 0 {
        let d = folders.drop_last();
        lemma_sublime_folders_each(d, path);
        assert forall|i: int| 0 <= i < folders.len() implies sublime_folder_spec(
            #[trigger] folders[i],
            path,
        ) == Ok::<JsonView, ErrorView>(sublime_folders_spec(folders, path)->Ok_0[i]) by {
            if i < folders.len() - 1 {
                assert(folders[i] == d[i]);
            }
        }
    }
}

/// Merging into a Sublime project keeps what was there: every other
/// setting of the project as it was, every folder, and every other setting
/// of each folder.
pub proof fn lemma_merge_sublime_keeps_settings(doc: JsonView, path: Seq<char>, k: Seq<char>, i: int)
    requires
        merge_sublime_spec(doc, path) is Ok,
    ensures
        ({
            let es = doc->Object_0;
            let out = merge_sublime_spec(doc, path)->Ok_0->Object_0;
            let folders = match obj_get(es, "folders"@) {
                Some(JsonView::Array(f)) => f,
                _ => seq![],
            };
            let merged = match obj_get(out, "folders"@) {
                Some(JsonView::Array(f)) => f,
                _ => seq![],
            };
            &&& k != "folders"@ ==> obj_get(out, k) == obj_get(es, k)
            &&& merged.len() == folders.len()
            &&& (0 <= i < folders.len() && k != "file_exclude_patterns"@ && k
                != "index_exclude_patterns"@) ==> obj_get(merged[i]->Object_0, k) == obj_get(
                folders[i]->Object_0,
                k,
            )
        }),
{
    let key = "folders"@;
    if let JsonView::Object(es) = doc {
        if let Some(JsonView::Array(folders)) = obj_get(es, key) {
            let fs = sublime_folders_spec(folders, path)->Ok_0;
            lemma_sublime_folders_each(folders, path);
            lemma_obj_set_get(es, key, JsonView::Array(fs), k);
            if 0 <= i < folders.len() {
                let f = folders[i];
                assert(sublime_folder_spec(f, path) == Ok::<JsonView, ErrorView>(fs[i]));
                if let JsonView::Object(fes) = f {
                    let p1 = "file_exclude_patterns"@;
                    let p2 = "index_exclude_patterns"@;
                    let f1 = sublime_patterns_spec(fes, p1, path)->Ok_0;
                    let cur1 = match obj_get(fes, p1) {
                        Some(v) => v,
                        None => JsonView::Array(seq![]),
                    };
                    if let JsonView::Array(items) = cur1 {
                        let n1 = if has_str(items, "*.gloss"@) {
                            items
                        } else {
                            items.push(JsonView::Str("*.gloss"@))
                        };
                        lemma_obj_set_get(fes, p1, JsonView::Array(n1), k);
                    }
                    let cur2 = match obj_get(f1, p2) {
                        Some(v) => v,
                        None => JsonView::Array(seq![]),
                    };
                    if let JsonView::Array(items) = cur2 {
                        let n2 = if has_str(items, "*.gloss"@) {
                            items
                        } else {
                            items.push(JsonView::Str("*.gloss"@))
                        };
                        lemma_obj_set_get(f1, p2, JsonView::Array(n2), k);
                    }
                }
            }
        }
    }
}

/// Merging into Zed settings a second time changes nothing.
pub proof fn lemma_merge_zed_idempotent(doc: JsonView, path: Seq<char>)
    requires
        merge_zed_spec(doc, path) is Ok,
    ensures
        merge_zed_spec(merge_zed_spec(doc, path)->Ok_0, path) == merge_zed_spec(doc, path),
{
    let key = "file_scan_exclusions"@;
    if let JsonView::Object(es) = doc {
        let current = match obj_get(es, key) {
            Some(v) => v,
            None => JsonView::Array(seq![]),
        };
        if let JsonView::Array(items) = current {
            let items1 = if obj_get(es, key) is None {
                items + strs_view(zed_defaults())
            } else {
                items
            };
            let items2 = if has_str(items1, gloss_pattern()) {
                items1
            } else {
                items1.push(JsonView::Str(gloss_pattern()))
            };
            assert(has_str(items2, gloss_pattern())) by {
                if !has_str(items1, gloss_pattern()) {
                    assert(items2[items1.len() as int] == JsonView::Str(gloss_pattern()));
                }
            }
            let out = obj_set(es, key, JsonView::Array(items2));
            lemma_obj_set_get(es, key, JsonView::Array(items2), key);
            lemma_obj_set_get(out, key, JsonView::Array(items2), key);
        }
    }
}

proof fn lemma_sublime_patterns_again(fes: Seq<(Seq<char>, JsonView)>, key: Seq<char>, path: Seq<char>, other: Seq<char>)
    requires
        sublime_patterns_spec(fes, key, path) is Ok,
    ensures
        ({
            let out = sublime_patterns_spec(fes, key, path)->Ok_0;
            &&& sublime_patterns_spec(out, key, path) == Ok::<Seq<(Seq<char>, JsonView)>, ErrorView>(out)
            &&& other != key ==> obj_get(out, other) == obj_get(fes, other)
            &&& obj_get(out, key) matches Some(JsonView::Array(items)) && has_str(items, "*.gloss"@)
        }),
{
    let current = match obj_get(fes, key) {
        Some(v) => v,
        None => JsonView::Array(seq![]),
    };
    if let JsonView::Array(items) = current {
        let items2 = if has_str(items, "*.gloss"@) {
            items
        } else {
            items.push(JsonView::Str("*.gloss"@))
        };
        assert(has_str(items2, "*.gloss"@)) by {
            if !has_str(items, "*.gloss"@) {
                assert(items2[items.len() as int] == JsonView::Str("*.gloss"@));
            }
        }
        let out = obj_set(fes, key, JsonView::Array(items2));
        lemma_obj_set_get(fes, key, JsonView::Array(items2), other);
        lemma_obj_set_get(out, key, JsonView::Array(items2), key);
    }
}

proof fn lemma_sublime_folder_again(folder: JsonView, path: Seq<char>)
    requires
        sublime_folder_spec(folder, path) is Ok,
    ensures
        sublime_folder_spec(sublime_folder_spec(folder, path)->Ok_0, path) == sublime_folder_spec(
            folder,
            path,
        ),
{
    reveal_strlit("file_exclude_patterns");
    reveal_strlit("index_exclude_patterns");
    let k1 = "file_exclude_patterns"@;
    let k2 = "index_exclude_patterns"@;
    assert(k1 != k2) by {
        assert(k1[0] != k2[0]);
    }
    if let JsonView::Object(fes) = folder {
        let f1 = sublime_patterns_spec(fes, k1, path)->Ok_0;
        let f2 = sublime_patterns_spec(f1, k2, path)->Ok_0;
        lemma_sublime_patterns_again(fes, k1, path, k2);
        lemma_sublime_patterns_again(f1, k2, path, k1);
        let g1 = sublime_patterns_spec(f2, k1, path);
        assert(obj_get(f2, k1) == obj_get(f1, k1));
        if let Some(JsonView::Array(items)) = obj_get(f1, k1) {
            lemma_obj_set_get(f2, k1, JsonView::Array(items), k1);
        }
        assert(g1 == Ok::<Seq<(Seq<char>, JsonView)>, ErrorView>(f2));
    }
}

proof fn lemma_sublime_folders_again(folders: Seq<JsonView>, path: Seq<char>)
    requires
        sublime_folders_spec(folders, path) is Ok,
    ensures
        sublime_folders_spec(sublime_folders_spec(folders, path)->Ok_0, path) == sublime_folders_spec(
            folders,
            path,
        ),
    decreases folders.len(),
{
    if folders.len() > 0 {
        let d = folders.drop_last();
        lemma_sublime_folders_again(d, path);
        lemma_sublime_folder_again(folders.last(), path);
        let prev = sublime_folders_spec(d, path)->Ok_0;
        let f = sublime_folder_spec(folders.last(), path)->Ok_0;
        let fs = prev.push(f);
        assert(fs.drop_last() =~= prev);
        assert(fs.last() == f);
    }
}

/// Merging into a Sublime Text project a second time changes nothing.
pub proof fn lemma_merge_sublime_idempotent(doc: JsonView, path: Seq<char>)
    requires
        merge_sublime_spec(doc, path) is Ok,
    ensures
        merge_sublime_spec(merge_sublime_spec(doc, path)->Ok_0, path) == merge_sublime_spec(
            doc,
            path,
        ),
{
    if let JsonView::Object(es) = doc {
        if let Some(JsonView::Array(folders)) = obj_get(es, "folders"@) {
            lemma_sublime_folders_again(folders, path);
            let fs = sublime_folders_spec(folders, path)->Ok_0;
            let out = obj_set(es, "folders"@, JsonView::Array(fs));
            lemma_obj_set_get(es, "folders"@, JsonView::Array(fs), "folders"@);
            lemma_obj_set_get(out, "folders"@, JsonView::Array(fs), "folders"@);
        }
    }
}

/// A settings file that setup plans: where (relative to the repository),
/// for which editor, and how its JSON is merged (`None` for `.ignore`).
#[derive(Debug)]
pub struct EditorTarget {
    pub relative: String,
    pub editor: String,
    pub kind: Option<SettingsKind>,
}

/// The relative paths of the planned files from the fourth on: the Sublime
/// Text projects.
pub open spec fn sublime_targets(r: Seq<EditorTarget>) -> Seq<Seq<char>> {
    r.skip(3).map_values(|t: EditorTarget| t.relative@)
}

/// Whether a repository root entry is a Sublime Text project.
pub open spec fn is_sublime_project(name: Seq<char>) -> bool {
    crate::paths::path_extension(name) == Some("sublime-project"@)
}

fn target(relative: &str, editor: &str, kind: Option<SettingsKind>) -> (t: EditorTarget)
    ensures
        t.relative@ == relative@,
        t.editor@ == editor@,
        t.kind == kind,
{
    EditorTarget { relative: string_of(&chars_of(relative)), editor: string_of(&chars_of(editor)), kind }
}

/// The settings files setup plans, in order: `.ignore`, the VS Code-like
/// settings, the Zed settings, then each Sublime Text project among the
/// repository's root entries once, in `Path` order.
pub fn editor_targets(root_entries: &Vec<String>) -> (r: Vec<EditorTarget>)
    ensures
        r@.len() >= 3,
        r@[0].relative@ == ".ignore"@ && r@[0].editor@ == "portable_ignore"@ && r@[0].kind is None,
        r@[1].relative@ == ".vscode/settings.json"@ && r@[1].editor@ == "vscode_family"@
            && r@[1].kind == Some(SettingsKind::VsCodeFamily),
        r@[2].relative@ == ".zed/settings.json"@ && r@[2].editor@ == "zed"@ && r@[2].kind == Some(
            SettingsKind::Zed,
        ),
        forall|i: int|
            3 <= i < r@.len() ==> (#[trigger] r@[i]).editor@ == "sublime_text"@ && r@[i].kind
                == Some(SettingsKind::SublimeText),
        crate::paths::paths_sorted(sublime_targets(r@)),
        forall|x: Seq<char>| #[trigger] sublime_targets(r@).contains(x) <==> (crate::paths::texts(
            root_entries@,
        ).contains(x) && is_sublime_project(x)),
{
    let ghost ev = crate::paths::texts(root_entries@);
    let mut found: Vec<String> = Vec::new();
    let mut i: usize = 0;
    while i < root_entries.len()
        invariant
            ev == crate::paths::texts(root_entries@),
            i <= root_entries@.len(),
            forall|x: Seq<char>| #[trigger] crate::paths::texts(found@).contains(x) <==> (ev.take(
                i as int,
            ).contains(x) && is_sublime_project(x)),
        decreases root_entries@.len() - i,
    {
        let ghost before = crate::paths::texts(found@);
        let name = &root_entries[i];
        proof {
            assert(ev[i as int] == name@);
            assert(ev.take(i + 1) =~= ev.take(i as int).push(name@));
        }
        if crate::paths::has_extension(name.as_str(), "sublime-project") {
            found.push(name.clone());
            proof {
                assert(crate::paths::texts(found@) =~= before.push(name@));
            }
        }
        proof {
            assert forall|x: Seq<char>| #[trigger] crate::paths::texts(found@).contains(x) <==> (ev.take(
                i + 1,
            ).contains(x) && is_sublime_project(x)) by {
                if ev.take(i + 1).contains(x) && x != name@ {
                    let k = choose|k: int| 0 <= k < ev.take(i + 1).len() && #[trigger] ev.take(i + 1)[k] == x;
                    assert(ev.take(i as int)[k] == x);
                }
                if ev.take(i as int).contains(x) {
                    let k = choose|k: int| 0 <= k < ev.take(i as int).len() && #[trigger] ev.take(i as int)[k] == x;
                    assert(ev.take(i + 1)[k] == x);
                }
                if crate::paths::texts(found@).contains(x) && x == name@ {
                    assert(ev.take(i + 1)[i as int] == x);
                }
                if before.contains(x) {
                    let k = choose|k: int| 0 <= k < before.len() && #[trigger] before[k] == x;
                    assert(crate::paths::texts(found@)[k] == x);
                }
                if crate::paths::texts(found@).contains(x) && x != name@ {
                    let k = choose|k: int| 0 <= k < crate::paths::texts(found@).len() && #[trigger] crate::paths::texts(found@)[k] == x;
                    assert(before[k] == x);
                }
                if x == name@ && is_sublime_project(x) {
                    assert(crate::paths::texts(found@).last() == x);
                }
            }
        }
        i = i + 1;
    }
    proof {
        assert(ev.take(root_entries@.len() as int) =~= ev);
    }
    let sorted = crate::paths::sort_paths(&found);
    let mut r: Vec<EditorTarget> = Vec::new();
    r.push(target(".ignore", "portable_ignore", None));
    r.push(target(".vscode/settings.json", "vscode_family", Some(SettingsKind::VsCodeFamily)));
    r.push(target(".zed/settings.json", "zed", Some(SettingsKind::Zed)));
    let ghost sv = crate::paths::texts(sorted@);
    let mut k: usize = 0;
    while k < sorted.len()
        invariant
            sv == crate::paths::texts(sorted@),
            k <= sorted@.len(),
            r@.len() == 3 + k,
            r@[0].relative@ == ".ignore"@ && r@[0].editor@ == "portable_ignore"@ && r@[0].kind is None,
            r@[1].relative@ == ".vscode/settings.json"@ && r@[1].editor@ == "vscode_family"@
                && r@[1].kind == Some(SettingsKind::VsCodeFamily),
            r@[2].relative@ == ".zed/settings.json"@ && r@[2].editor@ == "zed"@ && r@[2].kind == Some(
                SettingsKind::Zed,
            ),
            forall|i: int|
                3 <= i < r@.len() ==> (#[trigger] r@[i]).editor@ == "sublime_text"@ && r@[i].kind
                    == Some(SettingsKind::SublimeText),
            sublime_targets(r@) == sv.take(k as int),
        decreases sorted@.len() - k,
    {
        let ghost before = r@;
        r.push(target(sorted[k].as_str(), "sublime_text", Some(SettingsKind::SublimeText)));
        proof {
            assert(sv[k as int] == sorted@[k as int]@);
            assert(sublime_targets(r@) =~= sv.take(k + 1));
        }
        k = k + 1;
    }
    proof {
        assert(sv.take(sorted@.len() as int) =~= sv);
    }
    r
}
} // verus!
