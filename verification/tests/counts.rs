use codex_provider_sync::collection::{IdSet, RolloutCollection, ThreadCwdMap};
use codex_provider_sync::counts::{
    build_encrypted_content_warning, encrypted_counts_to_stats, increment_provider_count,
    provider_counts_to_stats, CountMap, ProviderCounts, ProviderStat,
};
use codex_provider_sync::json::{object_insert, Json};
use codex_provider_sync::records::record_provider;

fn s(v: &str) -> String {
    v.to_string()
}

fn rows(stats: &[ProviderStat]) -> Vec<(String, u64, String)> {
    stats.iter().map(|x| (x.provider.clone(), x.count, x.source.clone())).collect()
}

fn counts(active: &[&str], archived: &[&str]) -> ProviderCounts {
    let mut c = ProviderCounts::new();
    for p in active {
        increment_provider_count(&mut c, "sessions", p);
    }
    for p in archived {
        increment_provider_count(&mut c, "archived_sessions", p);
    }
    c
}

#[test]
fn count_map_counts_and_orders_keys() {
    let mut m = CountMap::new();
    m.increment("b");
    m.increment("a");
    m.increment("b");
    assert_eq!(m.len(), 2);
    assert_eq!(m.entry(0), (s("a"), 1));
    assert_eq!(m.entry(1), (s("b"), 2));
    assert_eq!(m.get("b"), 2);
    assert_eq!(m.get("zzz"), 0);
}

#[test]
fn increment_goes_to_the_scope_bucket() {
    let c = counts(&["openai", "openai"], &["azure"]);
    assert_eq!(c.sessions.get("openai"), 2);
    assert_eq!(c.sessions.get("azure"), 0);
    assert_eq!(c.archived_sessions.get("azure"), 1);
    let other = counts(&[], &[]);
    let mut d = other;
    increment_provider_count(&mut d, "anything-else", "x");
    assert_eq!(d.sessions.get("x"), 1);
    assert_eq!(d.archived_sessions.len(), 0);
}

#[test]
fn provider_stats_lists_active_then_archived() {
    let c = counts(&["openai", "azure", "openai"], &["azure"]);
    assert_eq!(
        rows(&provider_counts_to_stats(&c)),
        vec![
            (s("azure"), 1, s("sessions")),
            (s("openai"), 2, s("sessions")),
            (s("azure"), 1, s("archived_sessions")),
        ]
    );
}

#[test]
fn encrypted_stats_sources() {
    let c = counts(&["openai"], &["openai"]);
    assert_eq!(
        rows(&encrypted_counts_to_stats(&c)),
        vec![
            (s("openai"), 1, s("encrypted:sessions")),
            (s("openai"), 1, s("encrypted:archived_sessions")),
        ]
    );
}

#[test]
fn warning_names_other_providers_sorted() {
    let c = counts(&["openai", "openai", "azure", "zeta"], &["openai"]);
    assert_eq!(
        build_encrypted_content_warning(&c, "azure"),
        Some(s("5 个 rollout 文件含 encrypted_content，来自 provider: openai, zeta。可见性可以同步到 azure，但继续对话或 compact 仍可能失败。"))
    );
}

#[test]
fn no_warning_when_only_target_has_encrypted_content() {
    let c = counts(&["azure"], &["azure"]);
    assert_eq!(build_encrypted_content_warning(&c, "azure"), None);
    assert_eq!(build_encrypted_content_warning(&counts(&[], &[]), "azure"), None);
}

#[test]
fn id_set_keeps_each_id_once() {
    let mut ids = IdSet::new();
    ids.insert(s("a"));
    ids.insert(s("b"));
    ids.insert(s("a"));
    assert_eq!(ids.len(), 2);
    assert!(ids.contains("b"));
    assert!(!ids.contains("c"));
}

#[test]
fn thread_cwd_map_replaces_value() {
    let mut m = ThreadCwdMap::new();
    m.insert(s("t1"), s("/a"));
    m.insert(s("t2"), s("/b"));
    m.insert(s("t1"), s("/c"));
    assert_eq!(m.len(), 2);
    assert_eq!(m.entry(0), (s("t1"), s("/c")));
    assert_eq!(m.entry(1), (s("t2"), s("/b")));
}

fn text(v: &str) -> Json {
    Json::Str(s(v))
}

fn obj(members: Vec<(&str, Json)>) -> Json {
    let mut m: Vec<(String, Json)> = Vec::new();
    for (k, v) in members {
        object_insert(&mut m, s(k), v);
    }
    Json::Object(m)
}

fn session(id: &str, cwd: &str, provider: &str) -> Json {
    obj(vec![
        ("type", text("session_meta")),
        (
            "payload",
            obj(vec![("id", text(id)), ("cwd", text(cwd)), ("model_provider", text(provider))]),
        ),
    ])
}

#[test]
fn observe_rollout_collects_everything() {
    let mut c = RolloutCollection::new();
    let first = session("t1", r"\\?\C:\Proj", "openai");
    let user = obj(vec![(
        "payload",
        obj(vec![("type", text("message")), ("role", text("user"))]),
    )]);
    let records = vec![session("t1", r"\\?\C:\Proj", "openai"), user];
    let r = c.observe_rollout(
        "archived_sessions",
        "{...}\n{\"encrypted_content\":1}",
        &first,
        &records,
        Some("azure"),
    );
    let rewritten = r.unwrap();
    assert_eq!(record_provider(&rewritten), s("azure"));
    assert_eq!(c.provider_counts.archived_sessions.get("openai"), 1);
    assert_eq!(c.provider_counts.sessions.len(), 0);
    assert_eq!(c.encrypted_content_counts.archived_sessions.get("openai"), 1);
    assert_eq!(c.user_event_thread_ids.len(), 1);
    assert_eq!(c.user_event_thread_ids.item(0), s("t1"));
    assert_eq!(c.thread_cwd_by_id.entry(0), (s("t1"), s(r"C:\Proj")));
}

#[test]
fn observe_rollout_of_target_provider_plans_nothing() {
    let mut c = RolloutCollection::new();
    let first = session("t1", "/w", "azure");
    let r = c.observe_rollout("sessions", "plain", &first, &vec![], Some("azure"));
    assert!(r.is_none());
    assert_eq!(c.provider_counts.sessions.get("azure"), 1);
    assert_eq!(c.encrypted_content_counts.sessions.len(), 0);
    assert_eq!(c.user_event_thread_ids.len(), 0);
}

#[test]
fn observe_rollout_passes_over_other_records() {
    let mut c = RolloutCollection::new();
    let first = obj(vec![("type", text("event_msg"))]);
    let r = c.observe_rollout("sessions", "x", &first, &vec![], Some("azure"));
    assert!(r.is_none());
    assert_eq!(c.provider_counts.sessions.len(), 0);
    assert_eq!(c.thread_cwd_by_id.len(), 0);
}

#[test]
fn finish_sorts_locked_paths_once_each() {
    let mut c = RolloutCollection::new();
    c.note_locked(s("/b"));
    c.note_locked(s("/a"));
    c.note_locked(s("/b"));
    c.finish();
    assert_eq!(c.locked_paths, vec![s("/a"), s("/b")]);
}

#[test]
fn law_increments_commute_on_example() {
    let mut a = counts(&["x"], &["y"]);
    let mut b = counts(&["x"], &["y"]);
    increment_provider_count(&mut a, "archived_sessions", "z");
    increment_provider_count(&mut a, "sessions", "x");
    increment_provider_count(&mut b, "sessions", "x");
    increment_provider_count(&mut b, "archived_sessions", "z");
    assert_eq!(rows(&provider_counts_to_stats(&a)), rows(&provider_counts_to_stats(&b)));
    assert_eq!(a.sessions.get("x"), 2);
    assert_eq!(a.archived_sessions.get("z"), 1);
}
