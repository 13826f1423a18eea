use codex_provider_sync::json::{json_eq, object_insert, Json};
use codex_provider_sync::paths::{normalize_comparable_path, CwdStat};
use codex_provider_sync::workspace::{
    path_array, read_workspace_roots, resolve_object_keys, resolve_value_object_keys,
    set_active_roots, set_path_array, sync_workspace_roots,
};

fn s(v: &str) -> String {
    v.to_string()
}

fn text(v: &str) -> Json {
    Json::Str(s(v))
}

fn strings(v: &[&str]) -> Json {
    Json::Array(v.iter().map(|x| text(x)).collect())
}

fn members(list: Vec<(&str, Json)>) -> Vec<(String, Json)> {
    let mut m: Vec<(String, Json)> = Vec::new();
    for (k, v) in list {
        object_insert(&mut m, s(k), v);
    }
    m
}

fn obj(list: Vec<(&str, Json)>) -> Json {
    Json::Object(members(list))
}

fn stat(cwd: &str, count: u64) -> CwdStat {
    CwdStat {
        cwd: s(cwd),
        normalized: normalize_comparable_path(cwd).unwrap(),
        count,
        updated_at_ms: 0,
    }
}

#[test]
fn path_array_reads_strings() {
    let v = Json::Array(vec![text("a"), text(" "), Json::Number(s("1")), text("b")]);
    assert_eq!(path_array(Some(&v)), vec![s("a"), s("b")]);
    assert_eq!(path_array(Some(&text("x"))), vec![s("x")]);
    assert_eq!(path_array(Some(&text("  "))), Vec::<String>::new());
    assert_eq!(path_array(Some(&Json::Null)), Vec::<String>::new());
    assert_eq!(path_array(None), Vec::<String>::new());
}

#[test]
fn set_path_array_reports_change() {
    let mut m = members(vec![("k", strings(&["a"]))]);
    assert!(!set_path_array(&mut m, "k", &[s("a")]));
    assert!(set_path_array(&mut m, "k", &[s("a"), s("b")]));
    assert!(json_eq(&m[0].1, &strings(&["a", "b"])));
    assert!(set_path_array(&mut m, "new", &[]));
    assert_eq!(m.len(), 2);
}

#[test]
fn active_roots_keep_single_string_form() {
    let mut m = members(vec![("active-workspace-roots", text("/old"))]);
    assert!(set_active_roots(&mut m, &[s("/a"), s("/b")]));
    assert!(json_eq(&m[0].1, &text("/a")));
    assert!(set_active_roots(&mut m, &[]));
    assert!(json_eq(&m[0].1, &Json::Null));
    let mut arr = members(vec![("active-workspace-roots", strings(&["/x"]))]);
    assert!(!set_active_roots(&mut arr, &[s("/x")]));
}

#[test]
fn rekey_object_by_resolved_paths() {
    let stats = vec![stat(r"C:\Proj", 3)];
    let mut v = obj(vec![("c:/proj", text("late")), (r"C:\Proj", text("first"))]);
    assert!(resolve_value_object_keys(&mut v, &stats));
    assert!(json_eq(&v, &obj(vec![(r"C:\Proj", text("first"))])));
    assert!(!resolve_value_object_keys(&mut v, &stats));
    let mut not_object = text("x");
    assert!(!resolve_value_object_keys(&mut not_object, &stats));
}

#[test]
fn rekey_member_of_object() {
    let stats = vec![stat("/home/Me", 1)];
    let mut m = members(vec![(
        "electron-workspace-root-labels",
        obj(vec![("/home/me/", text("Me"))]),
    )]);
    assert!(resolve_object_keys(&mut m, "electron-workspace-root-labels", &stats));
    assert!(json_eq(&m[0].1, &obj(vec![("/home/Me", text("Me"))])));
    assert!(!resolve_object_keys(&mut m, "missing", &stats));
}

#[test]
fn sync_repairs_saved_roots() {
    let state = obj(vec![
        ("electron-saved-workspace-roots", strings(&[r"\\?\C:\Proj", "c:/proj", "/b"])),
        ("active-workspace-roots", text(r"\\?\C:\Proj")),
    ]);
    let stats = vec![stat(r"C:\Proj", 2)];
    let (next, result) = sync_workspace_roots(&state, &stats, false);
    assert!(result.present);
    assert!(result.updated);
    assert_eq!(result.updated_workspace_roots, 3);
    assert_eq!(result.saved_workspace_root_count, 2);
    let expected = obj(vec![
        ("electron-saved-workspace-roots", strings(&[r"C:\Proj", "/b"])),
        ("project-order", strings(&[r"C:\Proj", "/b"])),
        ("active-workspace-roots", text(r"C:\Proj")),
    ]);
    assert!(json_eq(&next.unwrap(), &expected));
}

#[test]
fn sync_of_repaired_state_writes_only_missing_backup() {
    let state = obj(vec![
        ("electron-saved-workspace-roots", strings(&["/a"])),
        ("project-order", strings(&["/a"])),
        ("active-workspace-roots", strings(&["/a"])),
    ]);
    let (next, result) = sync_workspace_roots(&state, &[], false);
    assert!(next.is_none());
    assert!(!result.updated);
    assert_eq!(result.updated_workspace_roots, 0);
    assert_eq!(result.saved_workspace_root_count, 1);
    let (again, with_backup) = sync_workspace_roots(&state, &[], true);
    assert!(with_backup.updated);
    assert!(json_eq(&again.unwrap(), &state));
}

#[test]
fn sync_leaves_non_object_state() {
    let (next, result) = sync_workspace_roots(&strings(&["/a"]), &[], true);
    assert!(next.is_none());
    assert!(result.present);
    assert!(!result.updated);
    assert_eq!(result.saved_workspace_root_count, 0);
}

#[test]
fn workspace_roots_in_desktop_form() {
    let state = obj(vec![
        ("electron-saved-workspace-roots", strings(&["/s", r"\\?\D:\x"])),
        ("project-order", strings(&["/p", "/s"])),
        ("active-workspace-roots", text("/P")),
    ]);
    assert_eq!(read_workspace_roots(&state), vec![s("/p"), s("/s"), s(r"D:\x")]);
    let no_order = obj(vec![
        ("electron-saved-workspace-roots", strings(&["/s"])),
        ("active-workspace-roots", strings(&["/a", " "])),
    ]);
    assert_eq!(read_workspace_roots(&no_order), vec![s("/s"), s("/a")]);
    assert_eq!(read_workspace_roots(&Json::Null), Vec::<String>::new());
}
