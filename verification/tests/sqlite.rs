use codex_provider_sync::collection::{IdSet, ThreadCwdMap};
use codex_provider_sync::sqlite::{
    build_time_expression, cwd_repairs, cwd_stats_sql, has_column_exec, is_generic_provider_column,
    project_visibility_sql, provider_columns, provider_count_sql, provider_stats_sql,
    provider_update_sql, quote_ident, scan_sqlite_provider_stats, sqlite_err, sqlite_repair_stats,
    table_info_sql, user_event_ids, SqliteSyncStats,
};
use codex_provider_sync::sync::{statement, sync_target, threads_sync_steps, StateStatement};

fn s(v: &str) -> String {
    v.to_string()
}

fn cols(v: &[&str]) -> Vec<String> {
    v.iter().map(|x| s(x)).collect()
}

#[test]
fn quote_identifier_doubles_quotes() {
    assert_eq!(quote_ident("threads"), s("\"threads\""));
    assert_eq!(quote_ident("a\"b"), s("\"a\"\"b\""));
    assert_eq!(quote_ident(""), s("\"\""));
}

#[test]
fn time_expression_by_columns() {
    assert_eq!(
        build_time_expression(&cols(&["updated_at", "created_at_ms", "id"])),
        s("COALESCE(updated_at * 1000, created_at_ms, 0)")
    );
    assert_eq!(
        build_time_expression(&cols(&["created_at", "updated_at_ms", "updated_at", "created_at_ms"])),
        s("COALESCE(updated_at_ms, updated_at * 1000, created_at_ms, created_at * 1000, 0)")
    );
    assert_eq!(build_time_expression(&vec![]), s("COALESCE(0)"));
}

#[test]
fn cwd_stats_statement() {
    assert_eq!(
        cwd_stats_sql(&cols(&["cwd", "updated_at_ms", "updated_at"])),
        s("SELECT cwd, COUNT(*) AS count, COALESCE(MAX(updated_at_ms), MAX(updated_at) * 1000, 0) AS updated_at_ms FROM threads WHERE cwd IS NOT NULL AND cwd <> '' GROUP BY cwd ORDER BY count DESC, updated_at_ms DESC, cwd")
    );
    assert_eq!(
        cwd_stats_sql(&cols(&["cwd", "updated_at"])),
        s("SELECT cwd, COUNT(*) AS count, COALESCE(MAX(updated_at) * 1000, 0) AS updated_at_ms FROM threads WHERE cwd IS NOT NULL AND cwd <> '' GROUP BY cwd ORDER BY count DESC, updated_at_ms DESC, cwd")
    );
    assert_eq!(
        cwd_stats_sql(&cols(&["cwd"])),
        s("SELECT cwd, COUNT(*) AS count, 0 AS updated_at_ms FROM threads WHERE cwd IS NOT NULL AND cwd <> '' GROUP BY cwd ORDER BY count DESC, updated_at_ms DESC, cwd")
    );
}

#[test]
fn visibility_statement_with_all_columns() {
    let c = cols(&["id", "cwd", "model_provider", "archived", "source", "first_user_message", "updated_at_ms"]);
    assert_eq!(
        project_visibility_sql(&c),
        s("SELECT id, cwd, model_provider, COALESCE(updated_at_ms, 0) AS sort_ts FROM threads WHERE cwd IS NOT NULL AND cwd <> '' AND archived = 0 AND first_user_message <> '' AND source IN ('cli', 'vscode') ORDER BY sort_ts DESC, id DESC")
    );
}

#[test]
fn visibility_statement_with_few_columns() {
    assert_eq!(
        project_visibility_sql(&cols(&["id", "cwd"])),
        s("SELECT id, cwd, '' AS model_provider, COALESCE(0) AS sort_ts FROM threads WHERE cwd IS NOT NULL AND cwd <> ''    ORDER BY sort_ts DESC, id DESC")
    );
}

#[test]
fn provider_statements() {
    assert_eq!(
        provider_stats_sql("threads", "model_provider"),
        s("SELECT CAST(\"model_provider\" AS TEXT), COUNT(*) FROM \"threads\" WHERE \"model_provider\" IS NOT NULL GROUP BY \"model_provider\"")
    );
    assert_eq!(
        provider_count_sql("t", "provider"),
        s("SELECT COUNT(*) FROM \"t\" WHERE \"provider\" IS NOT NULL AND CAST(\"provider\" AS TEXT) != ?1")
    );
    assert_eq!(
        provider_update_sql("t", "provider"),
        s("UPDATE \"t\" SET \"provider\" = ?1 WHERE \"provider\" IS NOT NULL AND CAST(\"provider\" AS TEXT) != ?1")
    );
    assert_eq!(table_info_sql("my\"t"), s("PRAGMA table_info(\"my\"\"t\")"));
}

#[test]
fn provider_columns_in_order() {
    assert_eq!(
        provider_columns(&cols(&["id", "provider", "x", "model_provider", "providers"])),
        cols(&["provider", "model_provider"])
    );
    assert!(has_column_exec(&cols(&["a", "cwd"]), "cwd"));
    assert!(!has_column_exec(&cols(&["a"]), "cwd"));
}

#[test]
fn generic_columns_exclude_thread_provider() {
    assert!(!is_generic_provider_column("threads", "model_provider"));
    assert!(is_generic_provider_column("threads", "provider"));
    assert!(is_generic_provider_column("jobs", "model_provider"));
}

#[test]
fn sqlite_error_busy_hint() {
    assert_eq!(
        sqlite_err("Database Is LOCKED", "open SQLite state"),
        s("无法open SQLite state，因为 state_5.sqlite 正在被占用。请先关闭 Codex / Codex App / app-server 后重试。原始错误：Database Is LOCKED")
    );
    assert_eq!(
        sqlite_err("SQLITE_BUSY", "x"),
        s("无法x，因为 state_5.sqlite 正在被占用。请先关闭 Codex / Codex App / app-server 后重试。原始错误：SQLITE_BUSY")
    );
}

#[test]
fn sqlite_error_corrupt_hint() {
    assert_eq!(
        sqlite_err("file is not a database", "read"),
        s("无法read，因为 state_5.sqlite 损坏或不可读取。请先备份/修复数据库后重试。原始错误：file is not a database")
    );
    assert_eq!(
        sqlite_err("database disk image is MALFORMED", "read"),
        s("无法read，因为 state_5.sqlite 损坏或不可读取。请先备份/修复数据库后重试。原始错误：database disk image is MALFORMED")
    );
}

#[test]
fn sqlite_error_plain_message() {
    assert_eq!(sqlite_err("no such table: x", "read"), s("no such table: x"));
}

#[test]
fn sync_stats_total() {
    let mut st = SqliteSyncStats::new();
    st.record_provider_rows(3);
    st.add_generic_rows(2);
    st.add_generic_rows(-1);
    st.add_generic_rows(4);
    st.user_event_rows = 1;
    st.cwd_rows = 5;
    assert_eq!(st.provider_rows, 3);
    assert_eq!(st.generic_provider_rows, 6);
    assert_eq!(st.total(), 15);
    st.record_provider_rows(0);
    assert_eq!(st.provider_rows, 3);
}

#[test]
fn repair_stats_count_differences() {
    let flags = vec![Some(0), Some(1), None, Some(2)];
    let cwds = vec![
        (s("/a"), Some(s("/a"))),
        (s("/b"), Some(s("/c"))),
        (s("/d"), None),
    ];
    let r = sqlite_repair_stats(&flags, &cwds);
    assert_eq!(r.user_event_rows_needing_repair, 2);
    assert_eq!(r.cwd_rows_needing_repair, 1);
}

#[test]
fn cwd_repairs_skip_blank() {
    let mut m = ThreadCwdMap::new();
    m.insert(s("t1"), s("/a"));
    m.insert(s(" "), s("/b"));
    m.insert(s("t3"), s("  "));
    assert_eq!(cwd_repairs(&m), vec![(s("t1"), s("/a"))]);
}

#[test]
fn column_stats_source() {
    let r = scan_sqlite_provider_stats("threads", "model_provider", &vec![(s("openai"), 3), (s("azure"), 1)]);
    assert_eq!(r.len(), 2);
    assert_eq!(r[0].provider, s("openai"));
    assert_eq!(r[0].count, 3);
    assert_eq!(r[0].source, s("sqlite:threads:model_provider"));
    assert_eq!(r[1].count, 1);
}

#[test]
fn user_event_ids_listed() {
    let mut ids = IdSet::new();
    ids.insert(s("b"));
    ids.insert(s("a"));
    assert_eq!(user_event_ids(&ids), vec![s("b"), s("a")]);
}

#[test]
fn threads_steps_by_columns() {
    let st = threads_sync_steps(&cols(&["id", "cwd", "has_user_event"]));
    assert!(!st.provider);
    assert!(st.user_event);
    assert!(st.cwd);
}

#[test]
fn sync_target_errors_and_value() {
    assert_eq!(
        sync_target(false, "azure"),
        Err(s("找不到 config.toml，无法确定当前 provider。请先用 Codex/CCS 配置好账号后再同步。"))
    );
    assert_eq!(
        sync_target(true, "  "),
        Err(s("config.toml 中没有读取到根级 model_provider，无法确定同步目标。请先用 CCS 切换到目标账号/provider。"))
    );
    assert_eq!(sync_target(true, " azure "), Ok(s("azure")));
}

#[test]
fn fixed_statements() {
    assert_eq!(
        statement(StateStatement::UpdateThreadProviders),
        s("UPDATE threads SET model_provider = ?1 WHERE COALESCE(model_provider, '') <> ?1")
    );
    assert_eq!(
        statement(StateStatement::SetThreadCwd),
        s("UPDATE threads SET cwd = ?1 WHERE id = ?2 AND COALESCE(cwd, '') <> ?1")
    );
    assert_eq!(
        statement(StateStatement::ListTables),
        s("SELECT name FROM sqlite_master WHERE type='table' AND name NOT LIKE 'sqlite_%'")
    );
}
