//! Backups of the Codex home directory: where they are kept, how they are
//! listed and found, and the metadata written beside them.
use vstd::prelude::*;
use crate::text::{chars_of, lex_less, lex_lt, push_char};

verus! {

// ------------------------------------------------------------------
// Locations
// ------------------------------------------------------------------

/// What `Path::join` gives, as text, for a base path and one more part: a
/// function of the two texts on a given platform (the separator and what
/// counts as an absolute part are the platform's).
pub uninterp spec fn joined_path(base: Seq<char>, part: Seq<char>) -> Seq<char>;

/// Calls `Path::join` on a base path and a part, both given as text, and
/// gives the result as text.  Only the name of the result is claimed.
#[verifier::external_body]
fn path_join(base: &str, part: &str) -> (r: String)
    ensures
        r@ == joined_path(base@, part@),
{
    std::path::Path::new(base).join(part).to_string_lossy().into_owned()
}

/// `<home>/backups_state/provider-sync`
pub open spec fn backups_root_spec(home: Seq<char>) -> Seq<char> {
    joined_path(joined_path(home, "backups_state"@), "provider-sync"@)
}

/// `<home>/.provider-sync-backups`, where earlier versions kept backups.
pub open spec fn legacy_backups_root_spec(home: Seq<char>) -> Seq<char> {
    joined_path(home, ".provider-sync-backups"@)
}

/// The directory that holds the backups.
pub fn backups_root(home: &str) -> (r: String)
    ensures
        r@ == backups_root_spec(home@),
{
    let state = path_join(home, "backups_state");
    path_join(state.as_str(), "provider-sync")
}

/// The directory that held the backups of earlier versions.
pub fn legacy_backups_root(home: &str) -> (r: String)
    ensures
        r@ == legacy_backups_root_spec(home@),
{
    path_join(home, ".provider-sync-backups")
}

/// `exists` can answer `true` (resp. `false`) for a path with text `p`.
pub open spec fn may_answer<F: Fn(&String) -> bool>(path_exists: F, p: Seq<char>, answer: bool) -> bool {
    exists|s: &String| s@ == p && path_exists.ensures((s,), answer)
}

/// The directory of backup `id`: the current location when it exists
/// there, else the earlier location when it exists there, else `None`.
/// `exists` tells whether a path exists.
pub fn find_backup_dir<F: Fn(&String) -> bool>(home: &str, id: &str, path_exists: F) -> (r: Option<
    String,
>)
    requires
        forall|p: &String| path_exists.requires((p,)),
    ensures
        ({
            let current = joined_path(backups_root_spec(home@), id@);
            let legacy = joined_path(legacy_backups_root_spec(home@), id@);
            match r {
                Some(p) => (p@ == current && may_answer(path_exists, current, true)) || (p@ == legacy
                    && may_answer(path_exists, current, false) && may_answer(path_exists, legacy, true)),
                None => may_answer(path_exists, current, false) && may_answer(path_exists, legacy, false),
            }
        }),
{
    let root = backups_root(home);
    let current = path_join(root.as_str(), id);
    if path_exists(&current) {
        return Some(current);
    }
    let legacy_root = legacy_backups_root(home);
    let legacy = path_join(legacy_root.as_str(), id);
    if path_exists(&legacy) {
        return Some(legacy);
    }
    None
}

/// What a backup holds, in order: each entry of the Codex home directory
/// and whether it is a database file (a database file that the backup lacks
/// is removed on restore; any other entry is then left alone).
pub open spec fn backup_entries_spec() -> Seq<(Seq<char>, bool)> {
    seq![
        ("sessions"@, false),
        ("archived_sessions"@, false),
        ("state_5.sqlite"@, true),
        ("state_5.sqlite-wal"@, true),
        ("state_5.sqlite-shm"@, true),
        ("config.toml"@, false),
        (".codex-global-state.json"@, false),
        (".codex-global-state.json.bak"@, false),
    ]
}

/// The entries a backup copies and a restore puts back.
pub fn backup_entries() -> (r: Vec<(String, bool)>)
    ensures
        r@.map_values(|e: (String, bool)| (e.0@, e.1)) == backup_entries_spec(),
{
    let r = vec![
        (String::from_str("sessions"), false),
        (String::from_str("archived_sessions"), false),
        (String::from_str("state_5.sqlite"), true),
        (String::from_str("state_5.sqlite-wal"), true),
        (String::from_str("state_5.sqlite-shm"), true),
        (String::from_str("config.toml"), false),
        (String::from_str(".codex-global-state.json"), false),
        (String::from_str(".codex-global-state.json.bak"), false),
    ];
    assert(r@.map_values(|e: (String, bool)| (e.0@, e.1)) =~= backup_entries_spec());
    r
}

// ------------------------------------------------------------------
// Listing
// ------------------------------------------------------------------

/// A backup: its id (the directory name) and its directory.
pub struct BackupInfo {
    pub id: String,
    pub path: String,
}

pub open spec fn info_views(s: Seq<BackupInfo>) -> Seq<(Seq<char>, Seq<char>)> {
    s.map_values(|b: BackupInfo| (b.id@, b.path@))
}

/// No backup has a greater id than an earlier one.
pub open spec fn newest_first(s: Seq<(Seq<char>, Seq<char>)>) -> bool {
    forall|i: int, j: int| 0 <= i < j < s.len() ==> !lex_lt(s[i].0, s[j].0)
}

/// The backups from the greatest id (the newest, since ids are
/// timestamps) to the smallest; backups with equal ids keep their order.
pub fn sort_backups(infos: Vec<BackupInfo>) -> (r: Vec<BackupInfo>)
    ensures
        newest_first(info_views(r@)),
        info_views(r@).to_multiset() == info_views(infos@).to_multiset(),
        forall|i: int, j: int|
            0 <= i < j < r@.len() && r@[i].id@ == r@[j].id@ ==> exists|a: int, b: int|
                0 <= a < b < infos@.len() && #[trigger] info_views(infos@)[a] == info_views(r@)[i]
                    && #[trigger] info_views(infos@)[b] == info_views(r@)[j],
{
    broadcast use vstd::seq_lib::group_to_multiset_ensures;

    let ghost iv = info_views(infos@);
    let mut out: Vec<BackupInfo> = Vec::new();
    let mut keys: Vec<Vec<char>> = Vec::new();
    // origin[k] is the position in `infos` of out[k]
    let ghost mut origin: Seq<int> = Seq::empty();
    let mut rest = infos;
    let mut i: usize = 0;
    let n = rest.len();
    while i < n
        invariant
            i <= n,
            rest@ == infos@,
            n == infos@.len(),
            iv == info_views(infos@),
            keys@.len() == out@.len(),
            origin.len() == out@.len(),
            forall|k: int| 0 <= k < out@.len() ==> (#[trigger] keys@[k])@ == out@[k].id@,
            forall|k: int|
                0 <= k < out@.len() ==> 0 <= #[trigger] origin[k] < i && iv[origin[k]]
                    == info_views(out@)[k],
            forall|a: int, b: int|
                0 <= a < b < out@.len() && out@[a].id@ == out@[b].id@ ==> origin[a] < origin[b],
            newest_first(info_views(out@)),
            info_views(out@).to_multiset() == iv.take(i as int).to_multiset(),
        decreases n - i,
    {
        let x = BackupInfo { id: rest[i].id.clone(), path: rest[i].path.clone() };
        let xc = chars_of(x.id.as_str());
        let ghost sv = info_views(out@);
        let mut p: usize = 0;
        while p < out.len() && !lex_less(keys[p].as_slice(), xc.as_slice())
            invariant
                p <= out@.len(),
                sv == info_views(out@),
                xc@ == x.id@,
                keys@.len() == out@.len(),
                forall|k: int| 0 <= k < out@.len() ==> (#[trigger] keys@[k])@ == out@[k].id@,
                forall|k: int| 0 <= k < p ==> !lex_lt(#[trigger] sv[k].0, x.id@),
            decreases out@.len() - p,
        {
            p = p + 1;
        }
        let ghost xv = (x.id@, x.path@);
        proof {
            assert forall|k: int| p <= k < sv.len() implies !lex_lt(xv.0, #[trigger] sv[k].0) by {
                if lex_lt(xv.0, sv[k].0) {
                    crate::text::lemma_lex_transitive(sv[p as int].0, xv.0, sv[k].0);
                    if k == p {
                        crate::text::lemma_lex_irreflexive(sv[k].0);
                    }
                }
            }
            if p < sv.len() {
                assert(keys@[p as int]@ == out@[p as int].id@);
                assert(sv[p as int].0 == out@[p as int].id@);
                assert(lex_lt(sv[p as int].0, xv.0));
            }
            assert forall|k: int| p <= k < sv.len() implies sv[k].0 != xv.0 by {
                if sv[k].0 == xv.0 {
                    if k == p {
                        crate::text::lemma_lex_irreflexive(xv.0);
                    } else {
                        assert(!lex_lt(sv[p as int].0, sv[k].0));
                    }
                }
            }
        }
        let ghost old_keys = keys@;
        let ghost old_origin = origin;
        out.insert(p, x);
        keys.insert(p, xc);
        proof {
            origin = old_origin.insert(p as int, i as int);
            assert(info_views(out@) =~= sv.insert(p as int, xv));
            assert(iv[i as int] == xv);
            assert forall|a: int, b: int|
                0 <= a < b < info_views(out@).len() implies !lex_lt(
                info_views(out@)[a].0,
                info_views(out@)[b].0,
            ) by {
                let t = info_views(out@);
                if b < p {
                    assert(t[a] == sv[a] && t[b] == sv[b]);
                } else if b == p {
                    assert(t[a] == sv[a]);
                } else if a < p {
                    assert(t[a] == sv[a] && t[b] == sv[b - 1]);
                } else if a == p {
                    assert(t[b] == sv[b - 1]);
                } else {
                    assert(t[a] == sv[a - 1] && t[b] == sv[b - 1]);
                }
            }
            assert forall|k: int| 0 <= k < out@.len() implies (#[trigger] keys@[k])@
                == out@[k].id@ by {
                if k < p {
                    assert(keys@[k] == old_keys[k]);
                } else if k > p {
                    assert(keys@[k] == old_keys[k - 1]);
                }
            }
            assert forall|k: int|
                0 <= k < out@.len() implies 0 <= #[trigger] origin[k] < i + 1 && iv[origin[k]]
                == info_views(out@)[k] by {
                if k < p {
                    assert(origin[k] == old_origin[k]);
                    assert(info_views(out@)[k] == sv[k]);
                } else if k > p {
                    assert(origin[k] == old_origin[k - 1]);
                    assert(info_views(out@)[k] == sv[k - 1]);
                }
            }
            assert forall|a: int, b: int|
                0 <= a < b < out@.len() && out@[a].id@ == out@[b].id@ implies origin[a]
                < origin[b] by {
                assert(out@[a].id@ == info_views(out@)[a].0);
                assert(out@[b].id@ == info_views(out@)[b].0);
                if a < p && b < p {
                    assert(info_views(out@)[a] == sv[a] && info_views(out@)[b] == sv[b]);
                    assert(origin[a] == old_origin[a] && origin[b] == old_origin[b]);
                } else if a < p && b == p {
                    assert(origin[a] == old_origin[a]);
                } else if a < p && b > p {
                    assert(info_views(out@)[a] == sv[a] && info_views(out@)[b] == sv[b - 1]);
                    assert(origin[a] == old_origin[a] && origin[b] == old_origin[b - 1]);
                } else if a == p {
                    assert(info_views(out@)[b] == sv[b - 1]);
                    assert(info_views(out@)[a] == xv);
                } else {
                    assert(info_views(out@)[a] == sv[a - 1] && info_views(out@)[b] == sv[b - 1]);
                    assert(origin[a] == old_origin[a - 1] && origin[b] == old_origin[b - 1]);
                }
            }
            assert(iv.take(i + 1) =~= iv.take(i as int).push(iv[i as int]));
            vstd::seq_lib::to_multiset_insert(sv, p as int, xv);
            vstd::seq_lib::to_multiset_build(iv.take(i as int), iv[i as int]);
        }
        i = i + 1;
    }
    assert(iv.take(n as int) =~= iv);
    proof {
        assert forall|a: int, b: int|
            0 <= a < b < out@.len() && out@[a].id@ == out@[b].id@ implies exists|c: int, d: int|
                0 <= c < d < infos@.len() && #[trigger] info_views(infos@)[c] == info_views(
                    out@,
                )[a] && #[trigger] info_views(infos@)[d] == info_views(out@)[b] by {
            assert(iv[origin[a]] == info_views(out@)[a]);
            assert(iv[origin[b]] == info_views(out@)[b]);
        }
    }
    out
}

// ------------------------------------------------------------------
// Metadata
// ------------------------------------------------------------------

/// A text escaped for a JSON string: `\` as `\\`, `"` as `\"`, a line
/// break as `\n`.
pub open spec fn escaped(s: Seq<char>) -> Seq<char>
    decreases s.len(),
{
    if s.len() == 0 {
        Seq::empty()
    } else {
        escaped(s.drop_last()) + if s.last() == '\\' {
            seq!['\\', '\\']
        } else if s.last() == '"' {
            seq!['\\', '"']
        } else if s.last() == '\n' {
            seq!['\\', 'n']
        } else {
            seq![s.last()]
        }
    }
}

pub fn escape_json_string(value: &str) -> (r: String)
    ensures
        r@ == escaped(value@),
{
    let chars = chars_of(value);
    let mut out = String::new();
    let mut i: usize = 0;
    while i < chars.len()
        invariant
            i <= chars@.len(),
            chars@ == value@,
            out@ == escaped(chars@.take(i as int)),
        decreases chars@.len() - i,
    {
        assert(chars@.take(i + 1).drop_last() =~= chars@.take(i as int));
        let c = chars[i];
        if c == '\\' {
            push_char(&mut out, '\\');
            push_char(&mut out, '\\');
        } else if c == '"' {
            push_char(&mut out, '\\');
            push_char(&mut out, '"');
        } else if c == '\n' {
            push_char(&mut out, '\\');
            push_char(&mut out, 'n');
        } else {
            push_char(&mut out, c);
        }
        i = i + 1;
        assert(out@ =~= escaped(chars@.take(i as int)));
    }
    assert(chars@.take(chars@.len() as int) =~= chars@);
    out
}

/// The metadata file written into each backup.
pub open spec fn metadata_spec(codex_home: Seq<char>, created_at: Seq<char>) -> Seq<char> {
    "{\n  \"version\": 1,\n  \"namespace\": \"provider-sync\",\n  \"codexHome\": \""@ + escaped(
        codex_home,
    ) + "\",\n  \"createdAt\": \""@ + created_at + "\"\n}\n"@
}

/// The metadata of a backup of `codex_home` made at `created_at` (an RFC
/// 3339 time).
pub fn backup_metadata_json(codex_home: &str, created_at: &str) -> (r: String)
    ensures
        r@ == metadata_spec(codex_home@, created_at@),
{
    let mut out = String::from_str(
        "{\n  \"version\": 1,\n  \"namespace\": \"provider-sync\",\n  \"codexHome\": \"",
    );
    let escaped_home = escape_json_string(codex_home);
    out.append(escaped_home.as_str());
    out.append("\",\n  \"createdAt\": \"");
    out.append(created_at);
    out.append("\"\n}\n");
    out
}

// ------------------------------------------------------------------
// File errors
// ------------------------------------------------------------------

/// The kinds of I/O error that tell a file apart as held by another
/// program.
pub enum FileErrorKind {
    PermissionDenied,
    WouldBlock,
    Other,
}

/// The error comes from a file another program holds: access denied, an
/// operation that would block, or the Windows sharing or lock violation
/// (OS errors 32 and 33).
pub open spec fn busy_spec(kind: FileErrorKind, raw_os_error: Option<i32>) -> bool {
    kind is PermissionDenied || kind is WouldBlock || raw_os_error == Some(32i32) || raw_os_error
        == Some(33i32)
}

pub fn is_file_busy_error(kind: FileErrorKind, raw_os_error: Option<i32>) -> (r: bool)
    ensures
        r == busy_spec(kind, raw_os_error),
{
    let k = match kind {
        FileErrorKind::PermissionDenied => true,
        FileErrorKind::WouldBlock => true,
        FileErrorKind::Other => false,
    };
    k || match raw_os_error {
        Some(code) => code == 32 || code == 33,
        None => false,
    }
}

/// The text of an error (`ToString::to_string` of its `Display`).
pub fn to_err<E: std::fmt::Display>(e: E) -> (r: String)
    ensures
        vstd::string::to_string_from_display_ensures::<E>(&e, r),
{
    e.to_string()
}

} // verus!
