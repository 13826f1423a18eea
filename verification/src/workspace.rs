//! The workspace roots in Codex Desktop's global state
//! (`.codex-global-state.json`) and their repair: every stored path is
//! replaced by the spelling the threads' working directories use, lists lose
//! duplicates, and keyed objects are re-keyed the same way.
use vstd::prelude::*;
use crate::json::{
    find_member, first_member_is, json_clone, json_eq, jv, lemma_items_of, lemma_members_of,
    lemma_wf_object, member, member_keys, members, object_insert, object_members, put_member,
    wf_value, Json, JsonValue,
};
use crate::paths::{
    dedupe_paths, dedupe_spec, desktop_path, differences, resolve_stored_path, resolved_path,
    to_desktop_workspace_path, count_path_changes, CwdStat,
};
use crate::text::{chars_of, is_blank, strictly_sorted, trim, views};

verus! {

// ------------------------------------------------------------------
// Specifications
// ------------------------------------------------------------------

/// The non-blank strings among the items, in order.
pub open spec fn nonblank_strings(items: Seq<JsonValue>) -> Seq<Seq<char>>
    decreases items.len(),
{
    if items.len() == 0 {
        Seq::empty()
    } else {
        let prev = nonblank_strings(items.drop_last());
        match items.last() {
            JsonValue::Str(s) => if trim(s).len() > 0 {
                prev.push(s)
            } else {
                prev
            },
            _ => prev,
        }
    }
}

/// The paths a stored value holds: the non-blank strings of an array, a
/// single non-blank string, or none.
pub open spec fn path_array_spec(v: Option<JsonValue>) -> Seq<Seq<char>> {
    match v {
        Some(JsonValue::Array(items)) => nonblank_strings(items),
        Some(JsonValue::Str(s)) => if trim(s).len() > 0 {
            seq![s]
        } else {
            Seq::empty()
        },
        _ => Seq::empty(),
    }
}

/// An array of strings.
pub open spec fn string_array(ps: Seq<Seq<char>>) -> JsonValue {
    JsonValue::Array(ps.map_values(|p: Seq<char>| JsonValue::Str(p)))
}

/// Member `key` set to `value` unless it already has that value; whether it
/// changed.
pub open spec fn set_member_spec(m: Seq<(Seq<char>, JsonValue)>, key: Seq<char>, value: JsonValue) -> (
    bool,
    Seq<(Seq<char>, JsonValue)>,
) {
    if member(m, key) == Some(value) {
        (false, m)
    } else {
        (true, put_member(m, key, value))
    }
}

pub open spec fn active_key() -> Seq<char> {
    "active-workspace-roots"@
}

/// The value stored for the active roots: a single string (or null) where
/// a single string was stored, else an array.
pub open spec fn active_value(current: Option<JsonValue>, ps: Seq<Seq<char>>) -> JsonValue {
    match current {
        Some(JsonValue::Str(_)) => if ps.len() > 0 {
            JsonValue::Str(ps[0])
        } else {
            JsonValue::Null
        },
        _ => string_array(ps),
    }
}

/// Every path resolved against the threads' working directories.
pub open spec fn resolve_all(ps: Seq<Seq<char>>, stats: Seq<CwdStat>) -> Seq<Seq<char>> {
    ps.map_values(|p: Seq<char>| resolved_path(p, stats))
}

/// Every path in its desktop form.
pub open spec fn desktop_all(ps: Seq<Seq<char>>) -> Seq<Seq<char>> {
    ps.map_values(|p: Seq<char>| desktop_path(p))
}

/// The members re-keyed by their resolved paths, in order, the first
/// member keeping a key that several resolve to (what inserting each
/// resolved key with `entry(..).or_insert(..)` into a new map gives).
pub open spec fn rekey(m: Seq<(Seq<char>, JsonValue)>, stats: Seq<CwdStat>) -> Seq<
    (Seq<char>, JsonValue),
>
    decreases m.len(),
{
    if m.len() == 0 {
        Seq::empty()
    } else {
        let prev = rekey(m.drop_last(), stats);
        let k = resolved_path(m.last().0, stats);
        if member(prev, k) is Some {
            prev
        } else {
            put_member(prev, k, m.last().1)
        }
    }
}

/// The re-keyed object when re-keying changes it; `None` when the value is
/// not an object or re-keying leaves it as it is.
pub open spec fn rekeyed_value(v: JsonValue, stats: Seq<CwdStat>) -> Option<JsonValue> {
    match v {
        JsonValue::Object(m) => if JsonValue::Object(rekey(m, stats)) != v {
            Some(JsonValue::Object(rekey(m, stats)))
        } else {
            None
        },
        _ => None,
    }
}

/// The members with the value of the (first) member `key` replaced.
pub open spec fn replace_member(m: Seq<(Seq<char>, JsonValue)>, key: Seq<char>, value: JsonValue) -> Seq<
    (Seq<char>, JsonValue),
> {
    m.update(choose|i: int| first_member_is(m, key, i), (key, value))
}

/// The object under `key` re-keyed; whether that changed anything.
pub open spec fn rekey_member_spec(m: Seq<(Seq<char>, JsonValue)>, key: Seq<char>, stats: Seq<CwdStat>) -> (
    bool,
    Seq<(Seq<char>, JsonValue)>,
) {
    match member(m, key) {
        Some(v) => match rekeyed_value(v, stats) {
            Some(n) => (true, replace_member(m, key, n)),
            None => (false, m),
        },
        None => (false, m),
    }
}

/// The `perPath` object under `open-in-target-preferences` re-keyed.
pub open spec fn per_path_spec(m: Seq<(Seq<char>, JsonValue)>, stats: Seq<CwdStat>) -> (
    bool,
    Seq<(Seq<char>, JsonValue)>,
) {
    match member(m, "open-in-target-preferences"@) {
        Some(JsonValue::Object(om)) => {
            let (c, om2) = rekey_member_spec(om, "perPath"@, stats);
            if c {
                (true, replace_member(m, "open-in-target-preferences"@, JsonValue::Object(om2)))
            } else {
                (false, m)
            }
        },
        _ => (false, m),
    }
}

/// The repaired roots of a state's members: the saved roots, the project
/// order and the active roots.
pub open spec fn next_saved_spec(m: Seq<(Seq<char>, JsonValue)>, stats: Seq<CwdStat>) -> Seq<
    Seq<char>,
> {
    let saved = path_array_spec(member(m, "electron-saved-workspace-roots"@));
    let order = path_array_spec(member(m, "project-order"@));
    let active = path_array_spec(member(m, "active-workspace-roots"@));
    if order.len() == 0 {
        dedupe_spec(resolve_all(saved + active, stats))
    } else {
        dedupe_spec(resolve_all(order + saved + active, stats))
    }
}

pub open spec fn next_order_spec(m: Seq<(Seq<char>, JsonValue)>, stats: Seq<CwdStat>) -> Seq<
    Seq<char>,
> {
    let saved = path_array_spec(member(m, "electron-saved-workspace-roots"@));
    let order = path_array_spec(member(m, "project-order"@));
    if order.len() == 0 {
        dedupe_spec(next_saved_spec(m, stats))
    } else {
        dedupe_spec(resolve_all(order + saved, stats))
    }
}

pub open spec fn next_active_spec(m: Seq<(Seq<char>, JsonValue)>, stats: Seq<CwdStat>) -> Seq<
    Seq<char>,
> {
    dedupe_spec(resolve_all(path_array_spec(member(m, "active-workspace-roots"@)), stats))
}

/// The repaired members of a state object and whether anything changed.
pub open spec fn repair_spec(m0: Seq<(Seq<char>, JsonValue)>, stats: Seq<CwdStat>) -> (
    bool,
    Seq<(Seq<char>, JsonValue)>,
) {
    let (c1, m1) = set_member_spec(
        m0,
        "electron-saved-workspace-roots"@,
        string_array(next_saved_spec(m0, stats)),
    );
    let (c2, m2) = set_member_spec(m1, "project-order"@, string_array(next_order_spec(m0, stats)));
    let (c3, m3) = set_member_spec(
        m2,
        active_key(),
        active_value(member(m2, active_key()), next_active_spec(m0, stats)),
    );
    let (c4, m4) = rekey_member_spec(m3, "electron-workspace-root-labels"@, stats);
    let (c5, m5) = per_path_spec(m4, stats);
    (c1 || c2 || c3 || c4 || c5, m5)
}

/// The roots Codex Desktop shows for a state: the project order (or, when
/// there is none, the saved roots) followed by the saved and active roots,
/// in desktop form, without duplicates.
pub open spec fn workspace_roots_spec(v: JsonValue) -> Seq<Seq<char>> {
    let m = object_members(v);
    let saved = path_array_spec(member(m, "electron-saved-workspace-roots"@));
    let order = path_array_spec(member(m, "project-order"@));
    let active = path_array_spec(member(m, "active-workspace-roots"@));
    if order.len() == 0 {
        dedupe_spec(desktop_all(saved + active))
    } else {
        dedupe_spec(desktop_all(order + saved + active))
    }
}

// ------------------------------------------------------------------
// Executable functions
// ------------------------------------------------------------------

/// The paths a stored value holds.
pub fn path_array(value: Option<&Json>) -> (r: Vec<String>)
    ensures
        views(r@) == path_array_spec(
            match value {
                Some(v) => Some(jv(*v)),
                None => None,
            },
        ),
{
    match value {
        Some(Json::Array(items)) => {
            proof {
                lemma_items_of(*items);
            }
            let ghost its = items@.map_values(|x: Json| jv(x));
            let mut out: Vec<String> = Vec::new();
            let mut i: usize = 0;
            while i < items.len()
                invariant
                    i <= items@.len(),
                    its == items@.map_values(|x: Json| jv(x)),
                    views(out@) == nonblank_strings(its.take(i as int)),
                decreases items@.len() - i,
            {
                proof {
                    assert(its.take(i + 1).drop_last() =~= its.take(i as int));
                    assert(its.take(i + 1).last() == jv(items@[i as int]));
                }
                match &items[i] {
                    Json::Str(s) => {
                        if !is_blank(chars_of(s.as_str()).as_slice()) {
                            let ghost before = views(out@);
                            out.push(s.clone());
                            assert(views(out@) =~= before.push(s@));
                        }
                    },
                    _ => {},
                }
                i = i + 1;
            }
            assert(its.take(items@.len() as int) =~= its);
            out
        },
        Some(Json::Str(s)) => {
            if !is_blank(chars_of(s.as_str()).as_slice()) {
                let mut out: Vec<String> = Vec::new();
                out.push(s.clone());
                assert(views(out@) =~= seq![s@]);
                out
            } else {
                let out: Vec<String> = Vec::new();
                assert(views(out@) =~= Seq::<Seq<char>>::empty());
                out
            }
        },
        _ => {
            let out: Vec<String> = Vec::new();
            assert(views(out@) =~= Seq::<Seq<char>>::empty());
            out
        },
    }
}

fn string_array_exec(paths: &[String]) -> (r: Json)
    ensures
        jv(r) == string_array(views(paths@)),
{
    let mut items: Vec<Json> = Vec::new();
    let mut i: usize = 0;
    while i < paths.len()
        invariant
            i <= paths@.len(),
            items@.len() == i,
            forall|k: int| 0 <= k < i ==> jv(#[trigger] items@[k]) == JsonValue::Str(paths@[k]@),
        decreases paths@.len() - i,
    {
        items.push(Json::Str(paths[i].clone()));
        i = i + 1;
    }
    proof {
        lemma_items_of(items);
        assert(items@.map_values(|x: Json| jv(x)) =~= views(paths@).map_values(
            |p: Seq<char>| JsonValue::Str(p),
        ));
    }
    Json::Array(items)
}

/// Sets member `key` to `next` unless it already has that value; whether
/// it changed.
fn set_member(obj: &mut Vec<(String, Json)>, key: &str, next: Json) -> (r: bool)
    requires
        strictly_sorted(member_keys(members(old(obj)@))),
    ensures
        strictly_sorted(member_keys(members(final(obj)@))),
        (r, members(final(obj)@)) == set_member_spec(members(old(obj)@), key@, jv(next)),
{
    let same = match find_member(obj, key) {
        Some(i) => json_eq(&obj[i].1, &next),
        None => false,
    };
    if same {
        return false;
    }
    object_insert(obj, String::from_str(key), next);
    true
}

/// Stores `paths` as the array under `key` unless it already is; whether
/// it changed.
pub fn set_path_array(obj: &mut Vec<(String, Json)>, key: &str, paths: &[String]) -> (r: bool)
    requires
        strictly_sorted(member_keys(members(old(obj)@))),
    ensures
        strictly_sorted(member_keys(members(final(obj)@))),
        (r, members(final(obj)@)) == set_member_spec(
            members(old(obj)@),
            key@,
            string_array(views(paths@)),
        ),
{
    let next = string_array_exec(paths);
    set_member(obj, key, next)
}

/// Stores the active roots: the first path (or null) where a single string
/// was stored, else the array of paths; whether it changed.
pub fn set_active_roots(obj: &mut Vec<(String, Json)>, paths: &[String]) -> (r: bool)
    requires
        strictly_sorted(member_keys(members(old(obj)@))),
    ensures
        strictly_sorted(member_keys(members(final(obj)@))),
        (r, members(final(obj)@)) == set_member_spec(
            members(old(obj)@),
            active_key(),
            active_value(member(members(old(obj)@), active_key()), views(paths@)),
        ),
{
    let single = match find_member(obj, "active-workspace-roots") {
        Some(i) => match &obj[i].1 {
            Json::Str(_) => true,
            _ => false,
        },
        None => false,
    };
    let next = if single {
        if paths.len() > 0 {
            Json::Str(paths[0].clone())
        } else {
            Json::Null
        }
    } else {
        string_array_exec(paths)
    };
    set_member(obj, "active-workspace-roots", next)
}

/// Re-keys an object by the resolved forms of its keys; whether it changed.
/// Other values are left alone.
pub fn resolve_value_object_keys(value: &mut Json, cwd_stats: &[CwdStat]) -> (r: bool)
    ensures
        r == rekeyed_value(jv(*old(value)), cwd_stats@) is Some,
        jv(*final(value)) == match rekeyed_value(jv(*old(value)), cwd_stats@) {
            Some(n) => n,
            None => jv(*old(value)),
        },
{
    let next = match &*value {
        Json::Object(map) => {
            proof {
                lemma_members_of(*map);
            }
            let ghost ms = members(map@);
            let mut next: Vec<(String, Json)> = Vec::new();
            let mut i: usize = 0;
            assert(members(next@) =~= rekey(ms.take(0), cwd_stats@));
            while i < map.len()
                invariant
                    i <= map@.len(),
                    ms == members(map@),
                    members(next@) == rekey(ms.take(i as int), cwd_stats@),
                    strictly_sorted(member_keys(members(next@))),
                decreases map@.len() - i,
            {
                proof {
                    assert(ms.take(i + 1).drop_last() =~= ms.take(i as int));
                    assert(ms.take(i + 1).last() == ms[i as int]);
                    assert(ms[i as int] == (map@[i as int].0@, jv(map@[i as int].1)));
                }
                let resolved = resolve_stored_path(map[i].0.as_str(), cwd_stats);
                match find_member(&next, resolved.as_str()) {
                    Some(_) => {},
                    None => {
                        let v = json_clone(&map[i].1);
                        object_insert(&mut next, resolved, v);
                    },
                }
                i = i + 1;
            }
            assert(ms.take(map@.len() as int) =~= ms);
            Some(next)
        },
        _ => None,
    };
    match next {
        Some(n) => {
            let nj = Json::Object(n);
            proof {
                lemma_members_of(n);
            }
            if json_eq(&*value, &nj) {
                false
            } else {
                *value = nj;
                true
            }
        },
        None => false,
    }
}

/// Re-keys the object under `key`; whether it changed.
pub fn resolve_object_keys(obj: &mut Vec<(String, Json)>, key: &str, cwd_stats: &[CwdStat]) -> (r:
    bool)
    ensures
        (r, members(final(obj)@)) == rekey_member_spec(members(old(obj)@), key@, cwd_stats@),
{
    match find_member(obj, key) {
        Some(i) => {
            let mut v = json_clone(&obj[i].1);
            let changed = resolve_value_object_keys(&mut v, cwd_stats);
            if changed {
                let ghost before = members(obj@);
                let k = obj[i].0.clone();
                obj.set(i, (k, v));
                proof {
                    let c = choose|c: int| first_member_is(before, key@, c);
                    crate::json::lemma_first_member_unique(before, key@, i as int, c);
                    assert(members(obj@) =~= replace_member(before, key@, jv(v)));
                }
            }
            changed
        },
        None => false,
    }
}

fn clone_strings(v: &Vec<String>) -> (r: Vec<String>)
    ensures
        views(r@) == views(v@),
{
    let mut out: Vec<String> = Vec::new();
    let mut i: usize = 0;
    while i < v.len()
        invariant
            i <= v@.len(),
            views(out@) == views(v@).take(i as int),
        decreases v@.len() - i,
    {
        let ghost before = out@;
        out.push(v[i].clone());
        assert(views(out@) =~= views(before).push(v@[i as int]@));
        i = i + 1;
        assert(views(out@) =~= views(v@).take(i as int));
    }
    assert(views(v@).take(v@.len() as int) =~= views(v@));
    out
}

fn concat_strings(a: &Vec<String>, b: &Vec<String>) -> (r: Vec<String>)
    ensures
        views(r@) == views(a@) + views(b@),
{
    let mut out = clone_strings(a);
    let mut i: usize = 0;
    while i < b.len()
        invariant
            i <= b@.len(),
            views(out@) == views(a@) + views(b@).take(i as int),
        decreases b@.len() - i,
    {
        let ghost before = out@;
        out.push(b[i].clone());
        assert(views(out@) =~= views(before).push(b@[i as int]@));
        i = i + 1;
        assert(views(out@) =~= views(a@) + views(b@).take(i as int));
    }
    assert(views(b@).take(b@.len() as int) =~= views(b@));
    out
}

fn resolve_each(v: &Vec<String>, cwd_stats: &[CwdStat]) -> (r: Vec<String>)
    ensures
        views(r@) == resolve_all(views(v@), cwd_stats@),
{
    let mut out: Vec<String> = Vec::new();
    let mut i: usize = 0;
    while i < v.len()
        invariant
            i <= v@.len(),
            views(out@) == resolve_all(views(v@).take(i as int), cwd_stats@),
        decreases v@.len() - i,
    {
        let ghost before = out@;
        let x = resolve_stored_path(v[i].as_str(), cwd_stats);
        out.push(x);
        assert(views(out@) =~= views(before).push(x@));
        i = i + 1;
        assert(views(out@) =~= resolve_all(views(v@).take(i as int), cwd_stats@));
    }
    assert(views(v@).take(v@.len() as int) =~= views(v@));
    out
}

fn desktop_each(v: &Vec<String>) -> (r: Vec<String>)
    ensures
        views(r@) == desktop_all(views(v@)),
{
    let mut out: Vec<String> = Vec::new();
    let mut i: usize = 0;
    while i < v.len()
        invariant
            i <= v@.len(),
            views(out@) == desktop_all(views(v@).take(i as int)),
        decreases v@.len() - i,
    {
        let ghost before = out@;
        let x = to_desktop_workspace_path(v[i].as_str());
        out.push(x);
        assert(views(out@) =~= views(before).push(x@));
        i = i + 1;
        assert(views(out@) =~= desktop_all(views(v@).take(i as int)));
    }
    assert(views(v@).take(v@.len() as int) =~= views(v@));
    out
}

/// The result of repairing the workspace roots.
pub struct WorkspaceSyncResult {
    /// The global state file exists.
    pub present: bool,
    /// The global state file (and its backup copy) is written.
    pub updated: bool,
    /// Positions of the saved roots that changed.
    pub updated_workspace_roots: u64,
    /// Number of saved roots after the repair.
    pub saved_workspace_root_count: u64,
}

/// Repairs the workspace roots of a global state.  Returns the state to
/// write, when anything changed or the backup copy is missing, and the
/// result.  A state that is not an object is left alone.
pub fn sync_workspace_roots(state: &Json, cwd_stats: &[CwdStat], backup_missing: bool) -> (r: (
    Option<Json>,
    WorkspaceSyncResult,
))
    requires
        state.wf(),
    ensures
        match jv(*state) {
            JsonValue::Object(m0) => {
                let (changed, m5) = repair_spec(m0, cwd_stats@);
                let saved = path_array_spec(member(m0, "electron-saved-workspace-roots"@));
                let next_saved = next_saved_spec(m0, cwd_stats@);
                &&& r.1.present
                &&& r.1.updated == (changed || backup_missing)
                &&& r.1.updated_workspace_roots == differences(
                    saved,
                    next_saved,
                    if saved.len() >= next_saved.len() {
                        saved.len()
                    } else {
                        next_saved.len()
                    },
                )
                &&& r.1.saved_workspace_root_count == next_saved.len()
                &&& match r.0 {
                    Some(j) => (changed || backup_missing) && jv(j) == JsonValue::Object(m5),
                    None => !(changed || backup_missing),
                }
            },
            _ => {
                &&& r.0 is None
                &&& r.1.present
                &&& !r.1.updated
                &&& r.1.updated_workspace_roots == 0
                &&& r.1.saved_workspace_root_count == 0
            },
        },
{
    let copy = json_clone(state);
    let mut obj = match copy {
        Json::Object(m) => m,
        _ => {
            return (
                None,
                WorkspaceSyncResult {
                    present: true,
                    updated: false,
                    updated_workspace_roots: 0,
                    saved_workspace_root_count: 0,
                },
            );
        },
    };
    let ghost m0 = members(obj@);
    proof {
        lemma_members_of(obj);
        assert(jv(*state) == JsonValue::Object(m0));
        lemma_wf_object(m0);
    }
    let existing_saved = path_array(state.get("electron-saved-workspace-roots"));
    let existing_project_order = path_array(state.get("project-order"));
    let existing_active = path_array(state.get("active-workspace-roots"));
    let next_saved = if existing_project_order.len() == 0 {
        dedupe_paths(resolve_each(&concat_strings(&existing_saved, &existing_active), cwd_stats))
    } else {
        let first = concat_strings(&existing_project_order, &existing_saved);
        dedupe_paths(resolve_each(&concat_strings(&first, &existing_active), cwd_stats))
    };
    let next_project_order = if existing_project_order.len() == 0 {
        dedupe_paths(clone_strings(&next_saved))
    } else {
        dedupe_paths(
            resolve_each(&concat_strings(&existing_project_order, &existing_saved), cwd_stats),
        )
    };
    let next_active = dedupe_paths(resolve_each(&existing_active, cwd_stats));
    proof {
        assert(views(next_saved@) == next_saved_spec(m0, cwd_stats@));
        assert(views(next_project_order@) == next_order_spec(m0, cwd_stats@));
        assert(views(next_active@) == next_active_spec(m0, cwd_stats@));
    }
    let c1 = set_path_array(&mut obj, "electron-saved-workspace-roots", next_saved.as_slice());
    let c2 = set_path_array(&mut obj, "project-order", next_project_order.as_slice());
    let c3 = set_active_roots(&mut obj, next_active.as_slice());
    let c4 = resolve_object_keys(&mut obj, "electron-workspace-root-labels", cwd_stats);
    let ghost m4 = members(obj@);
    let c5 = match find_member(&obj, "open-in-target-preferences") {
        Some(i) => match &obj[i].1 {
            Json::Object(om) => {
                proof {
                    lemma_members_of(*om);
                }
                let mut inner = match json_clone(&obj[i].1) {
                    Json::Object(x) => x,
                    _ => Vec::new(),
                };
                proof {
                    lemma_members_of(inner);
                }
                let changed = resolve_object_keys(&mut inner, "perPath", cwd_stats);
                if changed {
                    let k = obj[i].0.clone();
                    let new_open = Json::Object(inner);
                    proof {
                        lemma_members_of(inner);
                    }
                    obj.set(i, (k, new_open));
                    proof {
                        let c = choose|c: int| first_member_is(m4, "open-in-target-preferences"@, c);
                        crate::json::lemma_first_member_unique(
                            m4,
                            "open-in-target-preferences"@,
                            i as int,
                            c,
                        );
                        assert(members(obj@) =~= replace_member(
                            m4,
                            "open-in-target-preferences"@,
                            jv(new_open),
                        ));
                    }
                }
                changed
            },
            _ => false,
        },
        None => false,
    };
    let changed = c1 || c2 || c3 || c4 || c5;
    let updated_workspace_roots = count_path_changes(existing_saved.as_slice(), next_saved.as_slice());
    let count = next_saved.len() as u64;
    let result = WorkspaceSyncResult {
        present: true,
        updated: changed || backup_missing,
        updated_workspace_roots,
        saved_workspace_root_count: count,
    };
    if changed || backup_missing {
        let out = Json::Object(obj);
        proof {
            lemma_members_of(obj);
        }
        (Some(out), result)
    } else {
        (None, result)
    }
}

/// The roots Codex Desktop shows for a global state.
pub fn read_workspace_roots(state: &Json) -> (r: Vec<String>)
    ensures
        views(r@) == workspace_roots_spec(jv(*state)),
{
    proof {
        if state is Object {
            lemma_members_of(state->Object_0);
        }
    }
    let saved = path_array(state.get("electron-saved-workspace-roots"));
    let project_order = path_array(state.get("project-order"));
    let active = path_array(state.get("active-workspace-roots"));
    if project_order.len() == 0 {
        dedupe_paths(desktop_each(&concat_strings(&saved, &active)))
    } else {
        let first = concat_strings(&project_order, &saved);
        dedupe_paths(desktop_each(&concat_strings(&first, &active)))
    }
}

} // verus!
