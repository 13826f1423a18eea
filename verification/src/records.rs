//! The records of a rollout file: the `session_meta` record on its first
//! line and the message records after it.
use vstd::prelude::*;
use crate::json::{
    field, find_member, get_spec, is_object_value, json_clone, jv, lemma_members_of,
    member, member_keys, members, object_insert, opt_text, put_member, str_of, wf_value, Json,
    JsonValue,
};
use crate::text::{chars_of, string_of, strictly_sorted, trim, trim_chars};

verus! {

/// A `session_meta` record: `type` is `"session_meta"` and `payload` is an
/// object.
pub open spec fn session_meta_spec(v: JsonValue) -> bool {
    str_of(get_spec(v, "type"@)) == Some("session_meta"@) && is_object_value(
        get_spec(v, "payload"@),
    )
}

/// The payload's `id` when it is a non-blank string.
pub open spec fn session_id_spec(v: JsonValue) -> Option<Seq<char>> {
    match str_of(field(get_spec(v, "payload"@), "id"@)) {
        Some(s) => if trim(s).len() > 0 {
            Some(s)
        } else {
            None
        },
        None => None,
    }
}

/// The payload's `id` and `cwd`, trimmed, when both are non-blank strings.
pub open spec fn session_id_cwd_spec(v: JsonValue) -> Option<(Seq<char>, Seq<char>)> {
    let payload = get_spec(v, "payload"@);
    match (str_of(field(payload, "id"@)), str_of(field(payload, "cwd"@))) {
        (Some(i), Some(c)) => if trim(i).len() == 0 || trim(c).len() == 0 {
            None
        } else {
            Some((trim(i), trim(c)))
        },
        _ => None,
    }
}

/// Under `key`, a `message` from the `user`.
pub open spec fn user_message_under(v: JsonValue, key: Seq<char>) -> bool {
    let inner = get_spec(v, key);
    str_of(field(inner, "type"@)) == Some("message"@) && str_of(field(inner, "role"@)) == Some(
        "user"@,
    )
}

/// A record of something the user sent: an `event_msg` whose payload is a
/// `user_message`, or a user `message` under `payload`, `item` or `msg`.
pub open spec fn user_event_spec(v: JsonValue) -> bool {
    ||| (str_of(get_spec(v, "type"@)) == Some("event_msg"@) && str_of(
        field(get_spec(v, "payload"@), "type"@),
    ) == Some("user_message"@))
    ||| user_message_under(v, "payload"@)
    ||| user_message_under(v, "item"@)
    ||| user_message_under(v, "msg"@)
}

/// The provider a session record names, or `(missing)`.
pub open spec fn record_provider_spec(v: JsonValue) -> Seq<char> {
    match str_of(field(get_spec(v, "payload"@), "model_provider"@)) {
        Some(s) => s,
        None => "(missing)"@,
    }
}

/// The record with its payload's `model_provider` set to `target`, when
/// the record is an object whose payload is an object.
pub open spec fn with_provider_spec(v: JsonValue, target: Seq<char>) -> Option<JsonValue> {
    match v {
        JsonValue::Object(m) => match member(m, "payload"@) {
            Some(JsonValue::Object(pm)) => Some(
                JsonValue::Object(
                    put_member(
                        m,
                        "payload"@,
                        JsonValue::Object(
                            put_member(pm, "model_provider"@, JsonValue::Str(target)),
                        ),
                    ),
                ),
            ),
            _ => None,
        },
        _ => None,
    }
}

fn text_is(s: Option<&String>, lit: &str) -> (r: bool)
    ensures
        r == (s is Some && s.unwrap()@ == lit@),
{
    match s {
        Some(x) => *x == String::from_str(lit),
        None => false,
    }
}

fn field_of<'a>(v: Option<&'a Json>, key: &str) -> (r: Option<&'a Json>)
    ensures
        r matches Some(x) ==> v is Some && field(Some(jv(*v.unwrap())), key@) == Some(jv(*x)),
        r is None ==> v is None || field(Some(jv(*v.unwrap())), key@) is None,
{
    match v {
        Some(j) => j.get(key),
        None => None,
    }
}

/// Whether a record is a `session_meta` record.
pub fn is_session_meta_record(v: &Json) -> (r: bool)
    ensures
        r == session_meta_spec(jv(*v)),
{
    let t = opt_text(v.get("type"));
    let is_meta = text_is(t, "session_meta");
    let payload_is_object = match v.get("payload") {
        Some(p) => p.is_object(),
        None => false,
    };
    is_meta && payload_is_object
}

/// The session id of a record, when it is a non-blank string.
pub fn session_meta_id(v: &Json) -> (r: Option<String>)
    ensures
        r matches Some(s) ==> session_id_spec(jv(*v)) == Some(s@),
        r is None <==> session_id_spec(jv(*v)) is None,
{
    let id = opt_text(field_of(v.get("payload"), "id"));
    match id {
        Some(s) => {
            let t = trim_chars(chars_of(s.as_str()).as_slice());
            if t.len() > 0 {
                Some(s.clone())
            } else {
                None
            }
        },
        None => None,
    }
}

/// The session id and working directory of a record, trimmed.
pub fn session_meta_id_and_cwd(v: &Json) -> (r: Option<(String, String)>)
    ensures
        r matches Some(p) ==> session_id_cwd_spec(jv(*v)) == Some((p.0@, p.1@)),
        r is None <==> session_id_cwd_spec(jv(*v)) is None,
{
    let payload = v.get("payload");
    let id = match opt_text(field_of(payload, "id")) {
        Some(s) => trim_chars(chars_of(s.as_str()).as_slice()),
        None => {
            return None;
        },
    };
    let cwd = match opt_text(field_of(payload, "cwd")) {
        Some(s) => trim_chars(chars_of(s.as_str()).as_slice()),
        None => {
            return None;
        },
    };
    if id.len() == 0 || cwd.len() == 0 {
        return None;
    }
    Some((string_of(id.as_slice()), string_of(cwd.as_slice())))
}

fn user_message_under_exec(v: &Json, key: &str) -> (r: bool)
    ensures
        r == user_message_under(jv(*v), key@),
{
    let inner = v.get(key);
    text_is(opt_text(field_of(inner, "type")), "message") && text_is(
        opt_text(field_of(inner, "role")),
        "user",
    )
}

/// Whether a record is one of something the user sent.
pub fn record_has_user_event(v: &Json) -> (r: bool)
    ensures
        r == user_event_spec(jv(*v)),
{
    if text_is(opt_text(v.get("type")), "event_msg") && text_is(
        opt_text(field_of(v.get("payload"), "type")),
        "user_message",
    ) {
        return true;
    }
    user_message_under_exec(v, "payload") || user_message_under_exec(v, "item")
        || user_message_under_exec(v, "msg")
}

/// Whether any of the records of a file is one of something the user sent.
pub fn file_has_user_event(records: &Vec<Json>) -> (r: bool)
    ensures
        r == exists|i: int| 0 <= i < records@.len() && user_event_spec(jv(#[trigger] records@[i])),
{
    let mut i: usize = 0;
    while i < records.len()
        invariant
            i <= records@.len(),
            forall|k: int| 0 <= k < i ==> !user_event_spec(jv(#[trigger] records@[k])),
        decreases records@.len() - i,
    {
        if record_has_user_event(&records[i]) {
            return true;
        }
        i = i + 1;
    }
    false
}

/// The provider a session record names, or `(missing)`.
pub fn record_provider(v: &Json) -> (r: String)
    ensures
        r@ == record_provider_spec(jv(*v)),
{
    match opt_text(field_of(v.get("payload"), "model_provider")) {
        Some(s) => s.clone(),
        None => String::from_str("(missing)"),
    }
}

/// The record with its payload's `model_provider` set to `target`.
pub fn with_model_provider(v: &Json, target: &str) -> (r: Option<Json>)
    requires
        v.wf(),
    ensures
        r matches Some(j) ==> with_provider_spec(jv(*v), target@) == Some(jv(j)),
        r is None <==> with_provider_spec(jv(*v), target@) is None,
{
    match v {
        Json::Object(m) => {
            proof {
                lemma_members_of(*m);
                assert(jv(*v) == JsonValue::Object(members(m@)));
            }
            match find_member(m, "payload") {
                Some(i) => {
                    match &m[i].1 {
                        Json::Object(pm) => {
                            proof {
                                lemma_members_of(*pm);
                                assert(wf_value(jv(*v)));
                                assert(wf_value(JsonValue::Object(members(m@))));
                                crate::json::lemma_wf_object(members(m@));
                                assert(members(m@)[i as int].1 == jv(m@[i as int].1));
                                assert(wf_value(members(m@)[i as int].1));
                                assert(jv(m@[i as int].1) == JsonValue::Object(members(pm@)));
                                assert(wf_value(JsonValue::Object(members(pm@))));
                                crate::json::lemma_wf_object(members(pm@));
                                assert(strictly_sorted(member_keys(members(m@))));
                            }
                            let mut top: Vec<(String, Json)> = Vec::new();
                            let mut k: usize = 0;
                            while k < m.len()
                                invariant
                                    k <= m@.len(),
                                    top@.len() == k,
                                    forall|q: int| 0 <= q < k ==> #[trigger] members(top@)[q]
                                        == members(m@)[q],
                                decreases m@.len() - k,
                            {
                                let item = (m[k].0.clone(), json_clone(&m[k].1));
                                let ghost before = top@;
                                top.push(item);
                                proof {
                                    assert forall|q: int| 0 <= q < k + 1 implies #[trigger] members(
                                        top@,
                                    )[q] == members(m@)[q] by {
                                        if q < k {
                                            assert(top@[q] == before[q]);
                                            assert(members(before)[q] == members(top@)[q]);
                                        }
                                    }
                                }
                                k = k + 1;
                            }
                            assert(members(top@) =~= members(m@));
                            let mut inner: Vec<(String, Json)> = Vec::new();
                            let mut k2: usize = 0;
                            while k2 < pm.len()
                                invariant
                                    k2 <= pm@.len(),
                                    inner@.len() == k2,
                                    forall|q: int| 0 <= q < k2 ==> #[trigger] members(inner@)[q]
                                        == members(pm@)[q],
                                decreases pm@.len() - k2,
                            {
                                let item = (pm[k2].0.clone(), json_clone(&pm[k2].1));
                                let ghost before = inner@;
                                inner.push(item);
                                proof {
                                    assert forall|q: int| 0 <= q < k2 + 1 implies #[trigger] members(
                                        inner@,
                                    )[q] == members(pm@)[q] by {
                                        if q < k2 {
                                            assert(inner@[q] == before[q]);
                                            assert(members(before)[q] == members(inner@)[q]);
                                        }
                                    }
                                }
                                k2 = k2 + 1;
                            }
                            assert(members(inner@) =~= members(pm@));
                            object_insert(
                                &mut inner,
                                String::from_str("model_provider"),
                                Json::Str(String::from_str(target)),
                            );
                            let new_payload = Json::Object(inner);
                            proof {
                                lemma_members_of(inner);
                            }
                            object_insert(&mut top, String::from_str("payload"), new_payload);
                            proof {
                                lemma_members_of(top);
                            }
                            Some(Json::Object(top))
                        },
                        _ => None,
                    }
                },
                None => None,
            }
        },
        _ => None,
    }
}

} // verus!
