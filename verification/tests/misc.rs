use codex_provider_sync::backup::{
    backup_entries, backup_metadata_json, backups_root, escape_json_string, find_backup_dir, is_file_busy_error,
    legacy_backups_root, sort_backups, to_err, BackupInfo, FileErrorKind,
};
use codex_provider_sync::config::read_config_info;
use codex_provider_sync::cwdstats::read_thread_cwd_stats;
use codex_provider_sync::sync::explicit_codex_home;
use codex_provider_sync::visibility::{format_rank_preview, read_project_visibility, ThreadRow};

fn s(v: &str) -> String {
    v.to_string()
}

#[test]
fn rank_preview_short() {
    assert_eq!(format_rank_preview(&[1, 2, 3]), s("1, 2, 3"));
    assert_eq!(format_rank_preview(&[]), s(""));
    assert_eq!(format_rank_preview(&[42]), s("42"));
}

#[test]
fn rank_preview_long() {
    let ranks: Vec<u64> = (1..=14).collect();
    assert_eq!(
        format_rank_preview(&ranks),
        s("1, 2, 3, 4, 5, 6, 7, 8, 9, 10, 11, 12 (+2 more)")
    );
    let twelve: Vec<u64> = (1..=12).collect();
    assert_eq!(format_rank_preview(&twelve), s("1, 2, 3, 4, 5, 6, 7, 8, 9, 10, 11, 12"));
}

fn row(cwd: &str, provider: Option<&str>) -> ThreadRow {
    ThreadRow { cwd: s(cwd), provider: provider.map(s) }
}

#[test]
fn visibility_of_a_root() {
    let roots = vec![s(r"\\?\C:\Proj"), s("  ")];
    let rows = vec![
        row(r"C:\Proj", Some("openai")),
        row("D:\\x", Some("")),
        row(r"\\?\C:\proj", None),
    ];
    let v = read_project_visibility(&roots, &rows);
    assert_eq!(v.len(), 1);
    let p = &v[0];
    assert_eq!(p.root, s(r"C:\Proj"));
    assert_eq!(p.interactive_threads, 2);
    assert_eq!(p.first_page_threads, 2);
    assert_eq!(p.exact_cwd_matches, 1);
    assert_eq!(p.verbatim_cwd_rows, 1);
    assert_eq!(p.top_rank, Some(1));
    assert_eq!(p.rank_preview, s("1, 3"));
    assert_eq!(p.provider_counts.len(), 2);
    assert_eq!(p.provider_counts.get("(missing)"), 1);
    assert_eq!(p.provider_counts.get("openai"), 1);
}

#[test]
fn visibility_counts_first_page_only_up_to_fifty() {
    let mut rows = Vec::new();
    for i in 0..60 {
        rows.push(row(if i % 2 == 0 { "/w" } else { "/other" }, Some("p")));
    }
    let v = read_project_visibility(&vec![s("/W/")], &rows);
    assert_eq!(v[0].interactive_threads, 30);
    assert_eq!(v[0].first_page_threads, 25);
    assert_eq!(v[0].exact_cwd_matches, 0);
    assert_eq!(v[0].top_rank, Some(1));
    assert_eq!(v[0].rank_preview, s("1, 3, 5, 7, 9, 11, 13, 15, 17, 19, 21, 23 (+18 more)"));
}

#[test]
fn visibility_of_root_without_threads() {
    let v = read_project_visibility(&vec![s("/w")], &vec![]);
    assert_eq!(v[0].interactive_threads, 0);
    assert_eq!(v[0].top_rank, None);
    assert_eq!(v[0].rank_preview, s(""));
}

#[test]
fn cwd_stats_ranked() {
    let rows = vec![
        (s("/b"), 1, 5),
        (s("/a"), 2, 1),
        (s("  "), 9, 9),
        (s("/c"), 1, 7),
        (s("/A"), 2, 1),
    ];
    let r = read_thread_cwd_stats(&rows);
    let got: Vec<(String, String, u64, i64)> =
        r.iter().map(|x| (x.cwd.clone(), x.normalized.clone(), x.count, x.updated_at_ms)).collect();
    assert_eq!(
        got,
        vec![
            (s("/A"), s("/a"), 2, 1),
            (s("/a"), s("/a"), 2, 1),
            (s("/c"), s("/c"), 1, 7),
            (s("/b"), s("/b"), 1, 5),
        ]
    );
}

#[test]
fn config_current_provider_and_tables() {
    let text = "# comment\nmodel_provider = \"openai\"\n\n[model_providers.azure]\nname = 'Azure'\n[model_providers.\"open ai\"]\nmodel = \"x\"\nmodel_provider = 'azure'\n[other]\n";
    let (current, configured) = read_config_info(text);
    assert_eq!(current, s("openai"));
    assert_eq!(configured, vec![s("azure"), s("open ai")]);
}

#[test]
fn config_without_provider() {
    assert_eq!(read_config_info(""), (s(""), vec![]));
    let (current, configured) = read_config_info("  model_provider=\"p\"\r\n[model_providers.p]\r\n[model_providers.q\r\n");
    assert_eq!(current, s("p"));
    assert_eq!(configured, vec![s("p")]);
}

#[test]
fn config_root_assignment_wins_over_table_keys() {
    let text = "model_provider = 'first'\nmodel_provider = \"second\"\n[profiles.fast]\nmodel_provider = \"third\"\n";
    assert_eq!(read_config_info(text).0, s("second"));
    let only_in_table = "[profiles.fast]\nmodel_provider = \"third\"\n";
    assert_eq!(read_config_info(only_in_table).0, s(""));
}

#[test]
fn config_comment_assigns_nothing() {
    let (current, _) = read_config_info("model_provider = \"a\"\n# model_provider = \"b\"\nmodel_providerx = \"c\"\n");
    assert_eq!(current, s("a"));
}

#[test]
fn backup_roots_under_home() {
    assert_eq!(backups_root("/home/u/.codex"), s("/home/u/.codex/backups_state/provider-sync"));
    assert_eq!(legacy_backups_root("/home/u/.codex"), s("/home/u/.codex/.provider-sync-backups"));
}

#[test]
fn find_backup_prefers_current_location() {
    let both = |p: &String| p.ends_with("20250101-000000-000");
    assert_eq!(
        find_backup_dir("/h", "20250101-000000-000", both),
        Some(s("/h/backups_state/provider-sync/20250101-000000-000"))
    );
    let legacy_only = |p: &String| p.starts_with("/h/.provider-sync-backups");
    assert_eq!(
        find_backup_dir("/h", "x", legacy_only),
        Some(s("/h/.provider-sync-backups/x"))
    );
    assert_eq!(find_backup_dir("/h", "x", |_p: &String| false), None);
}

fn info(id: &str, path: &str) -> BackupInfo {
    BackupInfo { id: s(id), path: s(path) }
}

#[test]
fn backups_newest_first() {
    let r = sort_backups(vec![
        info("20240101-000000-000", "/a"),
        info("20250101-000000-000", "/b"),
        info("20240101-000000-000", "/c"),
        info("20230101-000000-000", "/d"),
    ]);
    let got: Vec<(String, String)> = r.iter().map(|x| (x.id.clone(), x.path.clone())).collect();
    assert_eq!(
        got,
        vec![
            (s("20250101-000000-000"), s("/b")),
            (s("20240101-000000-000"), s("/a")),
            (s("20240101-000000-000"), s("/c")),
            (s("20230101-000000-000"), s("/d")),
        ]
    );
}

#[test]
fn escape_for_json() {
    assert_eq!(escape_json_string("a\\b\"c\nd"), s("a\\\\b\\\"c\\nd"));
    assert_eq!(escape_json_string(""), s(""));
}

#[test]
fn law_escaped_has_no_line_break_on_example() {
    assert!(!escape_json_string("x\ny\n").contains('\n'));
}

#[test]
fn metadata_text() {
    assert_eq!(
        backup_metadata_json(r"C:\Users\me\.codex", "2025-01-01T00:00:00+08:00"),
        s("{\n  \"version\": 1,\n  \"namespace\": \"provider-sync\",\n  \"codexHome\": \"C:\\\\Users\\\\me\\\\.codex\",\n  \"createdAt\": \"2025-01-01T00:00:00+08:00\"\n}\n")
    );
}

#[test]
fn busy_errors() {
    assert!(is_file_busy_error(FileErrorKind::PermissionDenied, None));
    assert!(is_file_busy_error(FileErrorKind::WouldBlock, Some(5)));
    assert!(is_file_busy_error(FileErrorKind::Other, Some(32)));
    assert!(is_file_busy_error(FileErrorKind::Other, Some(33)));
    assert!(!is_file_busy_error(FileErrorKind::Other, Some(2)));
    assert!(!is_file_busy_error(FileErrorKind::Other, None));
}

#[test]
fn error_text() {
    assert_eq!(to_err("boom"), s("boom"));
    assert_eq!(to_err(42), s("42"));
}

#[test]
fn codex_home_choice() {
    assert_eq!(explicit_codex_home(Some(s("  "))), None);
    assert_eq!(explicit_codex_home(Some(s("/x"))), Some(s("/x")));
    assert_eq!(explicit_codex_home(None), None);
}

#[test]
fn backup_entry_list() {
    let got: Vec<(String, bool)> = backup_entries();
    assert_eq!(got.len(), 8);
    assert_eq!(got[0], (s("sessions"), false));
    assert_eq!(got[2], (s("state_5.sqlite"), true));
    assert_eq!(got[4], (s("state_5.sqlite-shm"), true));
    assert_eq!(got[7], (s(".codex-global-state.json.bak"), false));
}
