use codex_provider_sync::paths::{
    count_path_changes, dedupe_paths, is_rollout_file, normalize_comparable_path,
    resolve_stored_path, to_desktop_workspace_path, CwdStat,
};

fn s(v: &str) -> String {
    v.to_string()
}

fn stat(cwd: &str, count: u64) -> CwdStat {
    CwdStat {
        cwd: s(cwd),
        normalized: normalize_comparable_path(cwd).unwrap(),
        count,
        updated_at_ms: 0,
    }
}

#[test]
fn normalize_windows_path_lowercases_and_unifies_separators() {
    assert_eq!(normalize_comparable_path("  C:/Users/Foo/  "), Some(s(r"c:\users\foo")));
}

#[test]
fn normalize_blank_is_none() {
    assert_eq!(normalize_comparable_path(""), None);
    assert_eq!(normalize_comparable_path(" \t\n"), None);
}

#[test]
fn normalize_strips_verbatim_unc_prefix() {
    assert_eq!(normalize_comparable_path(r"\\?\UNC\Server\Share\"), Some(s(r"\\server\share")));
}

#[test]
fn normalize_strips_verbatim_prefix() {
    assert_eq!(normalize_comparable_path(r"\\?\C:\Work\"), Some(s(r"c:\work")));
}

#[test]
fn normalize_keeps_drive_root_separator() {
    assert_eq!(normalize_comparable_path(r"C:\"), Some(s(r"c:\")));
    assert_eq!(normalize_comparable_path(r"C:\\\"), Some(s(r"c:\")));
}

#[test]
fn normalize_unix_path() {
    assert_eq!(normalize_comparable_path("/home/User/proj//"), Some(s("/home/user/proj")));
    assert_eq!(normalize_comparable_path("/"), Some(s("/")));
    assert_eq!(normalize_comparable_path("///"), Some(s("/")));
}

#[test]
fn normalize_unicode_lowercase() {
    assert_eq!(normalize_comparable_path("/Données/ÉTÉ"), Some(s("/données/été")));
}

#[test]
fn desktop_path_drops_verbatim_prefix() {
    assert_eq!(to_desktop_workspace_path(r"\\?\C:/a/b"), s(r"C:\a\b"));
    assert_eq!(to_desktop_workspace_path(r" \\?\C:\Proj "), s(r"C:\Proj"));
}

#[test]
fn desktop_path_drops_verbatim_unc_prefix() {
    assert_eq!(to_desktop_workspace_path(r"\\?\UNC\srv/x"), s(r"\\srv\x"));
}

#[test]
fn desktop_path_keeps_other_text() {
    assert_eq!(to_desktop_workspace_path("  "), s("  "));
    assert_eq!(to_desktop_workspace_path(" /home/a "), s(" /home/a "));
    assert_eq!(to_desktop_workspace_path("C:/x"), s("C:/x"));
}

#[test]
fn dedupe_keeps_first_spelling_of_each_path() {
    let input = vec![s(r"C:\A"), s("c:/a/"), s(""), s(r"D:\b"), s(r"d:\B"), s("/x")];
    assert_eq!(dedupe_paths(input), vec![s(r"C:\A"), s(r"D:\b"), s("/x")]);
}

#[test]
fn law_dedupe_idempotent_on_example() {
    let input = vec![s("/a"), s("/A/"), s(" "), s("/b"), s("/a")];
    let once = dedupe_paths(input);
    let twice = dedupe_paths(once.clone());
    assert_eq!(once, vec![s("/a"), s("/b")]);
    assert_eq!(twice, once);
}

#[test]
fn count_changes_by_position() {
    let a = vec![s("a"), s("b")];
    let b = vec![s("a"), s("c"), s("d")];
    assert_eq!(count_path_changes(&a, &b), 2);
    assert_eq!(count_path_changes(&b, &a), 2);
    assert_eq!(count_path_changes(&[], &[]), 0);
}

#[test]
fn law_no_changes_against_itself_on_example() {
    let a = vec![s("x"), s("y"), s("z")];
    assert_eq!(count_path_changes(&a, &a), 0);
}

#[test]
fn resolve_uses_most_used_spelling() {
    let stats = vec![stat(r"\\?\C:\Proj", 5), stat(r"C:\proj", 1)];
    assert_eq!(resolve_stored_path("c:/proj/", &stats), s(r"C:\Proj"));
}

#[test]
fn resolve_without_match_gives_desktop_form() {
    assert_eq!(resolve_stored_path(r"\\?\D:\x", &[]), s(r"D:\x"));
    assert_eq!(resolve_stored_path("/home/a", &[stat("/home/b", 1)]), s("/home/a"));
}

#[test]
fn resolve_blank_is_unchanged() {
    assert_eq!(resolve_stored_path("  ", &[stat("/a", 1)]), s("  "));
}

#[test]
fn rollout_file_names() {
    assert!(is_rollout_file("rollout-2025-01-01T00-00-00-abc.jsonl"));
    assert!(!is_rollout_file("rollout-x.json"));
    assert!(!is_rollout_file("x-rollout-.jsonl"));
    assert!(!is_rollout_file(".jsonl"));
}

#[test]
fn law_desktop_form_keeps_comparable_form_on_example() {
    let p = r"\\?\C:\Users\Me\Proj\";
    assert_eq!(
        normalize_comparable_path(&to_desktop_workspace_path(p)),
        normalize_comparable_path(p)
    );
    let u = r"\\?\UNC\srv\share";
    assert_eq!(
        normalize_comparable_path(&to_desktop_workspace_path(u)),
        normalize_comparable_path(u)
    );
}

#[test]
fn law_desktop_form_idempotent_on_example() {
    let p = r"\\?\UNC\srv/share/x";
    let once = to_desktop_workspace_path(p);
    assert_eq!(to_desktop_workspace_path(&once), once);
}

#[test]
fn law_resolved_path_idempotent_on_example() {
    let stats = vec![stat(r"\\?\C:\Proj", 4), stat("/home/Me", 2)];
    for p in ["c:/proj", "/HOME/me/", r"\\?\D:\other", "  ", "/x"] {
        let once = resolve_stored_path(p, &stats);
        assert_eq!(resolve_stored_path(&once, &stats), once);
    }
}

#[test]
fn law_no_changes_iff_same_list_on_example() {
    let a = vec![s("x"), s("y")];
    let b = vec![s("x"), s("y"), s("z")];
    assert_ne!(count_path_changes(&a, &b), 0);
    assert_eq!(count_path_changes(&a, &a.clone()), 0);
}

#[test]
fn law_ascii_comparable_form_idempotent_on_example() {
    for p in [r"  C:/Users/Foo//  ", r"\\?\UNC\Srv\Share\", "/Home/User/", "abc\\", "Rel/Path"] {
        let n = normalize_comparable_path(p).unwrap();
        assert_eq!(normalize_comparable_path(&n), Some(n.clone()));
    }
}

#[test]
fn ascii_comparable_form_of_bare_verbatim_prefix_is_empty() {
    assert_eq!(normalize_comparable_path(r"\\?\"), Some(s("")));
    assert_eq!(normalize_comparable_path(""), None);
}
