use codex_provider_sync::json::{json_eq, object_insert, Json};
use codex_provider_sync::records::{
    file_has_user_event, is_session_meta_record, record_has_user_event, record_provider,
    session_meta_id, session_meta_id_and_cwd, with_model_provider,
};
use codex_provider_sync::rollout::{
    apply_rollout_change, content_lines, split_first_line, RolloutChange,
};

fn s(v: &str) -> String {
    v.to_string()
}

fn text(v: &str) -> Json {
    Json::Str(s(v))
}

fn obj(members: Vec<(&str, Json)>) -> Json {
    let mut m: Vec<(String, Json)> = Vec::new();
    for (k, v) in members {
        object_insert(&mut m, s(k), v);
    }
    Json::Object(m)
}

fn session(id: &str, cwd: &str, provider: Option<&str>) -> Json {
    let mut payload = vec![("id", text(id)), ("cwd", text(cwd))];
    if let Some(p) = provider {
        payload.push(("model_provider", text(p)));
    }
    obj(vec![("type", text("session_meta")), ("payload", obj(payload))])
}

#[test]
fn split_crlf_first_line() {
    let r = split_first_line("a\r\nb\nc");
    assert_eq!(r.first_line, "a");
    assert_eq!(r.separator, "\r\n");
    assert_eq!(r.rest_start, 3);
}

#[test]
fn split_lf_first_line() {
    let r = split_first_line("x\ny");
    assert_eq!(r.first_line, "x");
    assert_eq!(r.separator, "\n");
    assert_eq!(r.rest_start, 2);
}

#[test]
fn split_without_newline() {
    let r = split_first_line("abc");
    assert_eq!(r.first_line, "abc");
    assert_eq!(r.separator, "");
    assert_eq!(r.rest_start, 3);
}

#[test]
fn split_gives_byte_offset_of_rest() {
    let content = "é\r\nzz";
    let r = split_first_line(content);
    assert_eq!(r.first_line, "é");
    assert_eq!(r.separator, "\r\n");
    assert_eq!(r.rest_start, 4);
    assert_eq!(&content[r.rest_start..], "zz");
}

#[test]
fn split_empty_first_line() {
    let r = split_first_line("\nrest");
    assert_eq!(r.first_line, "");
    assert_eq!(r.separator, "\n");
    assert_eq!(r.rest_start, 1);
}

fn change(original: &str, sep: &str, updated: &str) -> RolloutChange {
    RolloutChange {
        path: s("/tmp/rollout-a.jsonl"),
        original_first_line: s(original),
        original_separator: s(sep),
        updated_first_line: s(updated),
    }
}

#[test]
fn apply_change_rewrites_first_line_only() {
    let c = change("{\"a\":1}", "\r\n", "{\"a\":2}");
    assert_eq!(
        apply_rollout_change("{\"a\":1}\r\nrest\nmore", &c),
        Some(s("{\"a\":2}\r\nrest\nmore"))
    );
}

#[test]
fn apply_change_skips_file_changed_since_scan() {
    let c = change("{\"a\":1}", "\n", "{\"a\":2}");
    assert_eq!(apply_rollout_change("{\"a\":3}\nrest", &c), None);
}

#[test]
fn apply_change_on_single_line_file() {
    let c = change("old", "", "new");
    assert_eq!(apply_rollout_change("old", &c), Some(s("new")));
}

#[test]
fn law_rewritten_first_line_reads_back_on_example() {
    let content = "für\r\nzweite\nü";
    let r = split_first_line(content);
    let c = change(&r.first_line, &r.separator, "updated");
    let next = apply_rollout_change(content, &c).unwrap();
    let back = split_first_line(&next);
    assert_eq!(back.first_line, "updated");
    assert_eq!(back.separator, "\r\n");
    let rest_old = &content[r.rest_start..];
    let rest_new = &next[back.rest_start..];
    assert_eq!(rest_new, rest_old);
}

#[test]
fn law_split_first_line_rejoins_on_example() {
    let content = "ligne é\r\nligne è\n";
    let r = split_first_line(content);
    let rest = &content[r.rest_start..];
    assert_eq!(format!("{}{}{}", r.first_line, r.separator, rest), content);
}

#[test]
fn content_lines_skip_blank_lines() {
    assert_eq!(content_lines("a\r\n\n  \nb"), vec![s("a"), s("b")]);
    assert_eq!(content_lines(""), Vec::<String>::new());
    assert_eq!(content_lines("x\n"), vec![s("x")]);
}

#[test]
fn session_meta_recognised() {
    assert!(is_session_meta_record(&session("t1", "/w", Some("openai"))));
    let other = obj(vec![("type", text("event_msg")), ("payload", obj(vec![]))]);
    assert!(!is_session_meta_record(&other));
    let no_payload = obj(vec![("type", text("session_meta")), ("payload", text("x"))]);
    assert!(!is_session_meta_record(&no_payload));
}

#[test]
fn session_id_when_not_blank() {
    assert_eq!(session_meta_id(&session("t1", "/w", None)), Some(s("t1")));
    assert_eq!(session_meta_id(&session("  ", "/w", None)), None);
}

#[test]
fn session_id_and_cwd_trimmed() {
    assert_eq!(
        session_meta_id_and_cwd(&session(" t1 ", r" C:\x ", None)),
        Some((s("t1"), s(r"C:\x")))
    );
    assert_eq!(session_meta_id_and_cwd(&session("t1", "  ", None)), None);
}

#[test]
fn user_events_recognised() {
    let event = obj(vec![
        ("type", text("event_msg")),
        ("payload", obj(vec![("type", text("user_message"))])),
    ]);
    assert!(record_has_user_event(&event));
    let message = obj(vec![(
        "item",
        obj(vec![("type", text("message")), ("role", text("user"))]),
    )]);
    assert!(record_has_user_event(&message));
    let assistant = obj(vec![(
        "msg",
        obj(vec![("type", text("message")), ("role", text("assistant"))]),
    )]);
    assert!(!record_has_user_event(&assistant));
    assert!(file_has_user_event(&vec![assistant, message]));
    assert!(!file_has_user_event(&vec![Json::Null]));
}

#[test]
fn provider_of_record() {
    assert_eq!(record_provider(&session("t", "/w", Some("openai"))), s("openai"));
    assert_eq!(record_provider(&session("t", "/w", None)), s("(missing)"));
}

#[test]
fn law_provider_rewrite_names_target_on_example() {
    let v = session("t1", "/w", Some("openai"));
    let w = with_model_provider(&v, "azure").unwrap();
    assert_eq!(record_provider(&w), s("azure"));
    assert!(is_session_meta_record(&w));
    assert_eq!(session_meta_id_and_cwd(&w), Some((s("t1"), s("/w"))));
    let added = with_model_provider(&session("t2", "/w", None), "azure").unwrap();
    assert_eq!(record_provider(&added), s("azure"));
}

#[test]
fn rewrite_needs_object_payload() {
    let v = obj(vec![("type", text("session_meta")), ("payload", Json::Null)]);
    assert!(with_model_provider(&v, "azure").is_none());
    assert!(with_model_provider(&Json::Null, "azure").is_none());
}

#[test]
fn json_members_kept_in_key_order() {
    let a = obj(vec![("b", text("1")), ("a", text("2"))]);
    let b = obj(vec![("a", text("2")), ("b", text("1"))]);
    assert!(json_eq(&a, &b));
    assert!(!json_eq(&a, &obj(vec![("a", text("2"))])));
    assert!(a.get("a").is_some());
    assert!(a.get("c").is_none());
    let mut m: Vec<(String, Json)> = Vec::new();
    object_insert(&mut m, s("k"), text("1"));
    object_insert(&mut m, s("k"), text("2"));
    assert_eq!(m.len(), 1);
    assert!(json_eq(&m[0].1, &text("2")));
}

#[test]
fn law_object_member_reads_back_on_example() {
    let mut m: Vec<(String, Json)> = Vec::new();
    object_insert(&mut m, s("b"), text("1"));
    object_insert(&mut m, s("a"), text("2"));
    object_insert(&mut m, s("c"), text("3"));
    object_insert(&mut m, s("b"), text("4"));
    let o = Json::Object(m);
    assert!(json_eq(o.get("b").unwrap(), &text("4")));
    assert!(json_eq(o.get("a").unwrap(), &text("2")));
    assert!(json_eq(o.get("c").unwrap(), &text("3")));
    if let Json::Object(members) = &o {
        let keys: Vec<String> = members.iter().map(|x| x.0.clone()).collect();
        assert_eq!(keys, vec![s("a"), s("b"), s("c")]);
    }
}
