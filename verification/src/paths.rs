//! Workspace paths as Codex and Codex Desktop store them.
//!
//! Paths are texts here.  Two spellings of one directory are recognised by
//! their comparable form (`normalize_comparable_path`): trimmed, without the
//! Windows verbatim prefix, with one kind of separator, without trailing
//! separators, lower-cased.  Codex Desktop shows a path without the
//! verbatim prefix (`to_desktop_workspace_path`).
use vstd::prelude::*;
use crate::text::{
    ascii_lower, chars_of, has_prefix, has_suffix, is_ascii_text, is_ws, lowercase, replace_char,
    replace_char_exec, slice_chars, string_of, to_lowercase_text, trim, trim_chars, trim_end,
    trim_start, utf8_len, utf8_len_exceeds, views,
};

verus! {

// ------------------------------------------------------------------
// Specifications
// ------------------------------------------------------------------

/// `\\?\UNC\`
pub open spec fn unc_verbatim_prefix() -> Seq<char> {
    seq!['\\', '\\', '?', '\\', 'U', 'N', 'C', '\\']
}

/// `\\?\`
pub open spec fn verbatim_prefix() -> Seq<char> {
    seq!['\\', '\\', '?', '\\']
}

/// `\\`
pub open spec fn double_backslash() -> Seq<char> {
    seq!['\\', '\\']
}

/// A trimmed path without its verbatim prefix: `\\?\UNC\server\x` becomes
/// `\\server\x`, `\\?\C:\x` becomes `C:\x`.
pub open spec fn strip_verbatim(t: Seq<char>) -> Seq<char> {
    if unc_verbatim_prefix().is_prefix_of(t) {
        double_backslash() + t.skip(8)
    } else if verbatim_prefix().is_prefix_of(t) {
        t.skip(4)
    } else {
        t
    }
}

/// A path is taken for a Windows one when it starts with `\\`, holds a
/// backslash, or has `:` as its second byte.
pub open spec fn looks_windows(n: Seq<char>) -> bool {
    ||| double_backslash().is_prefix_of(n)
    ||| n.contains('\\')
    ||| (n.len() >= 2 && (n[0] as int) < 0x80 && n[1] == ':')
}

/// `s` with trailing `c` removed one at a time while it is longer than
/// `min` UTF-8 bytes.
pub open spec fn pop_trailing(s: Seq<char>, c: char, min: nat) -> Seq<char>
    decreases s.len(),
{
    if s.len() > 0 && s.last() == c && utf8_len(s) > min {
        pop_trailing(s.drop_last(), c, min)
    } else {
        s
    }
}

/// The comparable form of a path, or `None` for a blank text.
pub open spec fn normalize_spec(v: Seq<char>) -> Option<Seq<char>> {
    let t = trim(v);
    if t.len() == 0 {
        None
    } else {
        let n = strip_verbatim(t);
        if looks_windows(n) {
            Some(lowercase(pop_trailing(replace_char(n, '/', '\\'), '\\', 3)))
        } else {
            Some(lowercase(pop_trailing(n, '/', 1)))
        }
    }
}

/// The comparable form of a path before lower-casing, or `None` for a
/// blank text.
pub open spec fn comparable_text(v: Seq<char>) -> Option<Seq<char>> {
    let t = trim(v);
    if t.len() == 0 {
        None
    } else {
        let n = strip_verbatim(t);
        if looks_windows(n) {
            Some(pop_trailing(replace_char(n, '/', '\\'), '\\', 3))
        } else {
            Some(pop_trailing(n, '/', 1))
        }
    }
}

/// The comparable form of an ASCII path: `comparable_text` with `A`–`Z`
/// lower-cased.
pub open spec fn normalize_ascii_spec(v: Seq<char>) -> Option<Seq<char>> {
    match comparable_text(v) {
        Some(w) => Some(ascii_lower(w)),
        None => None,
    }
}

pub proof fn lemma_trim_ascii(s: Seq<char>)
    requires
        is_ascii_text(s),
    ensures
        is_ascii_text(trim_start(s)),
        is_ascii_text(trim(s)),
{
    lemma_trim_start_ascii(s);
    lemma_trim_end_ascii(trim_start(s));
}

proof fn lemma_trim_start_ascii(s: Seq<char>)
    requires
        is_ascii_text(s),
    ensures
        is_ascii_text(trim_start(s)),
    decreases s.len(),
{
    if s.len() > 0 && is_ws(s[0]) {
        assert forall|i: int| 0 <= i < s.drop_first().len() implies (s.drop_first()[i] as u32) < 0x80 by {
            assert(s.drop_first()[i] == s[i + 1]);
        }
        lemma_trim_start_ascii(s.drop_first());
    }
}

proof fn lemma_trim_end_ascii(s: Seq<char>)
    requires
        is_ascii_text(s),
    ensures
        is_ascii_text(trim_end(s)),
    decreases s.len(),
{
    if s.len() > 0 && is_ws(s.last()) {
        assert forall|i: int| 0 <= i < s.drop_last().len() implies (s.drop_last()[i] as u32) < 0x80 by {
            assert(s.drop_last()[i] == s[i]);
        }
        lemma_trim_end_ascii(s.drop_last());
    }
}

/// Removing trailing characters leaves a prefix.
pub proof fn lemma_pop_trailing_prefix(s: Seq<char>, c: char, min: nat)
    ensures
        pop_trailing(s, c, min).len() <= s.len(),
        pop_trailing(s, c, min) == s.take(pop_trailing(s, c, min).len() as int),
    decreases s.len(),
{
    if s.len() > 0 && s.last() == c && utf8_len(s) > min {
        lemma_pop_trailing_prefix(s.drop_last(), c, min);
        let r = pop_trailing(s.drop_last(), c, min);
        assert(s.drop_last().take(r.len() as int) =~= s.take(r.len() as int));
    } else {
        assert(s.take(s.len() as int) =~= s);
    }
}

/// The comparable text of an ASCII path is ASCII.
pub proof fn lemma_comparable_text_ascii(v: Seq<char>)
    requires
        is_ascii_text(v),
    ensures
        comparable_text(v) matches Some(w) ==> is_ascii_text(w),
        trim(v).len() > 0 ==> is_ascii_text(strip_verbatim(trim(v))),
{
    let t = trim(v);
    lemma_trim_ascii(v);
    if t.len() > 0 {
        let n = strip_verbatim(t);
        assert(is_ascii_text(n)) by {
            if unc_verbatim_prefix().is_prefix_of(t) {
                assert forall|i: int| 0 <= i < n.len() implies (n[i] as u32) < 0x80 by {
                    if i >= 2 {
                        assert(n[i] == t[i + 6]);
                    }
                }
            } else if verbatim_prefix().is_prefix_of(t) {
                assert forall|i: int| 0 <= i < n.len() implies (n[i] as u32) < 0x80 by {
                    assert(n[i] == t[i + 4]);
                }
            }
        }
        let m = if looks_windows(n) {
            replace_char(n, '/', '\\')
        } else {
            n
        };
        assert(is_ascii_text(m));
        let c = if looks_windows(n) {
            '\\'
        } else {
            '/'
        };
        let min: nat = if looks_windows(n) {
            3
        } else {
            1
        };
        lemma_pop_trailing_prefix(m, c, min);
        let w = pop_trailing(m, c, min);
        assert forall|i: int| 0 <= i < w.len() implies (w[i] as u32) < 0x80 by {
            assert(w[i] == m[i]);
        }
    }
}

/// The path as Codex Desktop stores it: a verbatim prefix (after trimming)
/// is dropped and `/` becomes `\`; any other text is kept as it is.
pub open spec fn desktop_path(v: Seq<char>) -> Seq<char> {
    let t = trim(v);
    if t.len() == 0 {
        v
    } else if unc_verbatim_prefix().is_prefix_of(t) {
        replace_char(double_backslash() + t.skip(8), '/', '\\')
    } else if verbatim_prefix().is_prefix_of(t) {
        replace_char(t.skip(4), '/', '\\')
    } else {
        v
    }
}

/// Some path among the first `n` of `ps` has the comparable form `k`.
pub open spec fn key_among(ps: Seq<Seq<char>>, k: Seq<char>) -> bool {
    exists|j: int| 0 <= j < ps.len() && #[trigger] normalize_spec(ps[j]) == Some(k)
}

/// The paths that are not blank and whose comparable form no earlier path
/// has, in their order.
pub open spec fn dedupe_spec(ps: Seq<Seq<char>>) -> Seq<Seq<char>>
    decreases ps.len(),
{
    if ps.len() == 0 {
        Seq::empty()
    } else {
        let prev = dedupe_spec(ps.drop_last());
        match normalize_spec(ps.last()) {
            Some(k) => if key_among(ps.drop_last(), k) {
                prev
            } else {
                prev.push(ps.last())
            },
            None => prev,
        }
    }
}

pub open spec fn opt_at(s: Seq<Seq<char>>, i: int) -> Option<Seq<char>> {
    if 0 <= i < s.len() {
        Some(s[i])
    } else {
        None
    }
}

/// The number of positions below `k` at which the two lists differ.
pub open spec fn differences(a: Seq<Seq<char>>, b: Seq<Seq<char>>, k: nat) -> nat
    decreases k,
{
    if k == 0 {
        0
    } else {
        differences(a, b, (k - 1) as nat) + if opt_at(a, k - 1) != opt_at(b, k - 1) {
            1nat
        } else {
            0nat
        }
    }
}

/// How often a working directory occurs among the threads.
pub struct CwdStat {
    pub cwd: String,
    pub normalized: String,
    pub count: u64,
    pub updated_at_ms: i64,
}

/// `stats[i]` is the first statistic whose comparable form is `n`.
pub open spec fn first_match(stats: Seq<CwdStat>, n: Seq<char>, i: int) -> bool {
    &&& 0 <= i < stats.len()
    &&& stats[i].normalized@ == n
    &&& forall|j: int| 0 <= j < i ==> (#[trigger] stats[j]).normalized@ != n
}

/// A stored path resolved against the threads' working directories: the
/// desktop form of the first directory with the same comparable form, else
/// the desktop form of the path itself; a blank text is kept.
pub open spec fn resolved_path(v: Seq<char>, stats: Seq<CwdStat>) -> Seq<char> {
    match normalize_spec(v) {
        None => v,
        Some(n) => resolve_key(v, n, stats),
    }
}

/// The desktop form of the first directory whose comparable form is `n`,
/// else that of `v`.
pub open spec fn resolve_key(v: Seq<char>, n: Seq<char>, stats: Seq<CwdStat>) -> Seq<char> {
    if exists|i: int| first_match(stats, n, i) {
        desktop_path(stats[choose|i: int| first_match(stats, n, i)].cwd@)
    } else {
        desktop_path(v)
    }
}

/// The file name of a rollout: `rollout-*.jsonl`.
pub open spec fn is_rollout_name(name: Seq<char>) -> bool {
    seq!['r', 'o', 'l', 'l', 'o', 'u', 't', '-'].is_prefix_of(name) && seq![
        '.',
        'j',
        's',
        'o',
        'n',
        'l',
    ].is_suffix_of(name)
}

// ------------------------------------------------------------------
// Executable functions
// ------------------------------------------------------------------

fn strip_verbatim_exec(t: &Vec<char>) -> (r: Vec<char>)
    ensures
        r@ == strip_verbatim(t@),
{
    let unc: Vec<char> = vec!['\\', '\\', '?', '\\', 'U', 'N', 'C', '\\'];
    let verb: Vec<char> = vec!['\\', '\\', '?', '\\'];
    if has_prefix(t.as_slice(), unc.as_slice()) {
        let mut out: Vec<char> = vec!['\\', '\\'];
        let rest = slice_chars(t.as_slice(), 8, t.len());
        let mut i: usize = 0;
        while i < rest.len()
            invariant
                i <= rest@.len(),
                out@ == double_backslash() + rest@.take(i as int),
            decreases rest@.len() - i,
        {
            out.push(rest[i]);
            i = i + 1;
            assert(out@ =~= double_backslash() + rest@.take(i as int));
        }
        assert(rest@.take(rest@.len() as int) =~= rest@);
        assert(rest@ =~= t@.skip(8));
        out
    } else if has_prefix(t.as_slice(), verb.as_slice()) {
        let r = slice_chars(t.as_slice(), 4, t.len());
        assert(r@ =~= t@.skip(4));
        r
    } else {
        slice_chars(t.as_slice(), 0, t.len())
    }
}

fn contains_char(v: &[char], c: char) -> (r: bool)
    ensures
        r == v@.contains(c),
{
    let mut i: usize = 0;
    while i < v.len()
        invariant
            i <= v@.len(),
            forall|k: int| 0 <= k < i ==> v@[k] != c,
        decreases v@.len() - i,
    {
        if v[i] == c {
            return true;
        }
        i = i + 1;
    }
    false
}

fn looks_windows_exec(n: &Vec<char>) -> (r: bool)
    ensures
        r == looks_windows(n@),
{
    let dbl: Vec<char> = vec!['\\', '\\'];
    has_prefix(n.as_slice(), dbl.as_slice()) || contains_char(n.as_slice(), '\\') || (n.len()
        >= 2 && n[0] < '\u{80}' && n[1] == ':')
}

fn pop_trailing_exec(v: &Vec<char>, c: char, min: usize) -> (r: Vec<char>)
    requires
        min < 0x1_0000,
    ensures
        r@ == pop_trailing(v@, c, min as nat),
{
    let mut len: usize = v.len();
    assert(v@.take(len as int) =~= v@);
    while len > 0 && v[len - 1] == c && utf8_len_exceeds(v.as_slice(), len, min)
        invariant
            len <= v@.len(),
            min < 0x1_0000,
            pop_trailing(v@, c, min as nat) == pop_trailing(v@.take(len as int), c, min as nat),
        decreases len,
    {
        assert(v@.take(len as int).drop_last() =~= v@.take(len - 1));
        len = len - 1;
    }
    slice_chars(v.as_slice(), 0, len)
}

/// The comparable form of a path, or `None` when the text is blank.
pub fn normalize_comparable_path(value: &str) -> (r: Option<String>)
    ensures
        r matches Some(s) ==> normalize_spec(value@) == Some(s@),
        r is None <==> normalize_spec(value@) is None,
        is_ascii_text(value@) ==> (r matches Some(s) ==> normalize_ascii_spec(value@) == Some(s@)),
{
    let chars = chars_of(value);
    let t = trim_chars(chars.as_slice());
    if t.len() == 0 {
        return None;
    }
    let n = strip_verbatim_exec(&t);
    let popped = if looks_windows_exec(&n) {
        let w = replace_char_exec(n.as_slice(), '/', '\\');
        pop_trailing_exec(&w, '\\', 3)
    } else {
        pop_trailing_exec(&n, '/', 1)
    };
    let s = string_of(popped.as_slice());
    proof {
        if is_ascii_text(value@) {
            lemma_comparable_text_ascii(value@);
        }
    }
    Some(to_lowercase_text(s.as_str()))
}

fn prepend_double_backslash(rest: &Vec<char>) -> (r: Vec<char>)
    ensures
        r@ == double_backslash() + rest@,
{
    let mut out: Vec<char> = vec!['\\', '\\'];
    let mut i: usize = 0;
    while i < rest.len()
        invariant
            i <= rest@.len(),
            out@ == double_backslash() + rest@.take(i as int),
        decreases rest@.len() - i,
    {
        out.push(rest[i]);
        i = i + 1;
        assert(out@ =~= double_backslash() + rest@.take(i as int));
    }
    assert(rest@.take(rest@.len() as int) =~= rest@);
    out
}

/// The path as Codex Desktop stores it.
pub fn to_desktop_workspace_path(value: &str) -> (r: String)
    ensures
        r@ == desktop_path(value@),
{
    let chars = chars_of(value);
    let t = trim_chars(chars.as_slice());
    if t.len() == 0 {
        return String::from_str(value);
    }
    let unc: Vec<char> = vec!['\\', '\\', '?', '\\', 'U', 'N', 'C', '\\'];
    let verb: Vec<char> = vec!['\\', '\\', '?', '\\'];
    if has_prefix(t.as_slice(), unc.as_slice()) {
        let rest = slice_chars(t.as_slice(), 8, t.len());
        assert(rest@ =~= t@.skip(8));
        let joined = prepend_double_backslash(&rest);
        let replaced = replace_char_exec(joined.as_slice(), '/', '\\');
        return string_of(replaced.as_slice());
    }
    if has_prefix(t.as_slice(), verb.as_slice()) {
        let rest = slice_chars(t.as_slice(), 4, t.len());
        assert(rest@ =~= t@.skip(4));
        let replaced = replace_char_exec(rest.as_slice(), '/', '\\');
        return string_of(replaced.as_slice());
    }
    String::from_str(value)
}

fn contains_string(v: &Vec<String>, s: &String) -> (r: bool)
    ensures
        r == views(v@).contains(s@),
{
    let mut i: usize = 0;
    while i < v.len()
        invariant
            i <= v@.len(),
            forall|k: int| 0 <= k < i ==> v@[k]@ != s@,
        decreases v@.len() - i,
    {
        if v[i] == *s {
            assert(views(v@)[i as int] == s@);
            return true;
        }
        i = i + 1;
    }
    assert forall|k: int| 0 <= k < views(v@).len() implies views(v@)[k] != s@ by {
        assert(views(v@)[k] == v@[k]@);
    }
    false
}

/// The paths in their order, without blank ones and without any whose
/// comparable form an earlier path already has.
pub fn dedupe_paths(paths: Vec<String>) -> (r: Vec<String>)
    ensures
        views(r@) == dedupe_spec(views(paths@)),
{
    let ghost ps = views(paths@);
    let mut seen: Vec<String> = Vec::new();
    let mut out: Vec<String> = Vec::new();
    let mut i: usize = 0;
    while i < paths.len()
        invariant
            i <= paths@.len(),
            ps == views(paths@),
            views(out@) == dedupe_spec(ps.take(i as int)),
            forall|k: Seq<char>| views(seen@).contains(k) <==> key_among(ps.take(i as int), k),
        decreases paths@.len() - i,
    {
        let path = paths[i].clone();
        let key = normalize_comparable_path(path.as_str());
        proof {
            assert(ps.take(i + 1).drop_last() =~= ps.take(i as int));
            assert(ps.take(i + 1).last() == path@);
        }
        match key {
            Some(k) => {
                let found = contains_string(&seen, &k);
                if !found {
                    let ghost old_seen = views(seen@);
                    seen.push(k);
                    out.push(path);
                    proof {
                        assert(views(out@) =~= dedupe_spec(ps.take(i as int)).push(path@));
                        assert(views(seen@) =~= old_seen.push(k@));
                        assert forall|kk: Seq<char>| views(seen@).contains(kk) <==> key_among(
                            ps.take(i + 1),
                            kk,
                        ) by {
                            if key_among(ps.take(i + 1), kk) {
                                let j = choose|j: int|
                                    0 <= j < ps.take(i + 1).len() && #[trigger] normalize_spec(
                                        ps.take(i + 1)[j],
                                    ) == Some(kk);
                                if j < i {
                                    assert(ps.take(i as int)[j] == ps.take(i + 1)[j]);
                                    assert(key_among(ps.take(i as int), kk));
                                    assert(old_seen.contains(kk));
                                    let m = choose|m: int| 0 <= m < old_seen.len() && old_seen[m] == kk;
                                    assert(views(seen@)[m] == kk);
                                } else {
                                    assert(views(seen@)[old_seen.len() as int] == kk);
                                }
                            }
                            if views(seen@).contains(kk) {
                                let m = choose|m: int| 0 <= m < views(seen@).len() && views(seen@)[m] == kk;
                                if m < old_seen.len() {
                                    assert(old_seen[m] == kk);
                                    assert(old_seen.contains(kk));
                                    let j = choose|j: int|
                                        0 <= j < ps.take(i as int).len() && #[trigger] normalize_spec(
                                            ps.take(i as int)[j],
                                        ) == Some(kk);
                                    assert(ps.take(i + 1)[j] == ps.take(i as int)[j]);
                                } else {
                                    assert(normalize_spec(ps.take(i + 1)[i as int]) == Some(kk));
                                }
                            }
                        }
                    }
                } else {
                    proof {
                        assert forall|kk: Seq<char>| views(seen@).contains(kk) <==> key_among(
                            ps.take(i + 1),
                            kk,
                        ) by {
                            if key_among(ps.take(i + 1), kk) {
                                let j = choose|j: int|
                                    0 <= j < ps.take(i + 1).len() && #[trigger] normalize_spec(
                                        ps.take(i + 1)[j],
                                    ) == Some(kk);
                                if j < i {
                                    assert(ps.take(i as int)[j] == ps.take(i + 1)[j]);
                                }
                            }
                            if key_among(ps.take(i as int), kk) {
                                let j = choose|j: int|
                                    0 <= j < ps.take(i as int).len() && #[trigger] normalize_spec(
                                        ps.take(i as int)[j],
                                    ) == Some(kk);
                                assert(ps.take(i + 1)[j] == ps.take(i as int)[j]);
                            }
                        }
                    }
                }
            },
            None => {
                proof {
                    assert forall|kk: Seq<char>| views(seen@).contains(kk) <==> key_among(
                        ps.take(i + 1),
                        kk,
                    ) by {
                        if key_among(ps.take(i + 1), kk) {
                            let j = choose|j: int|
                                0 <= j < ps.take(i + 1).len() && #[trigger] normalize_spec(
                                    ps.take(i + 1)[j],
                                ) == Some(kk);
                            if j < i {
                                assert(ps.take(i as int)[j] == ps.take(i + 1)[j]);
                            }
                        }
                        if key_among(ps.take(i as int), kk) {
                            let j = choose|j: int|
                                0 <= j < ps.take(i as int).len() && #[trigger] normalize_spec(
                                    ps.take(i as int)[j],
                                ) == Some(kk);
                            assert(ps.take(i + 1)[j] == ps.take(i as int)[j]);
                        }
                    }
                }
            },
        }
        i = i + 1;
    }
    assert(ps.take(paths@.len() as int) =~= ps);
    out
}

/// The number of positions at which two path lists differ, counting the
/// positions that only the longer one has.
pub fn count_path_changes(previous: &[String], next: &[String]) -> (r: u64)
    ensures
        r == differences(
            views(previous@),
            views(next@),
            if previous@.len() >= next@.len() {
                previous@.len()
            } else {
                next@.len()
            },
        ),
{
    let max_len: usize = if previous.len() >= next.len() {
        previous.len()
    } else {
        next.len()
    };
    let mut changed: u64 = 0;
    let mut index: usize = 0;
    while index < max_len
        invariant
            index <= max_len,
            max_len == if previous@.len() >= next@.len() {
                previous@.len()
            } else {
                next@.len()
            },
            changed == differences(views(previous@), views(next@), index as nat),
            changed <= index,
        decreases max_len - index,
    {
        let same = if index < previous.len() && index < next.len() {
            previous[index] == next[index]
        } else {
            index >= previous.len() && index >= next.len()
        };
        assert(same <==> opt_at(views(previous@), index as int) == opt_at(
            views(next@),
            index as int,
        ));
        if !same {
            changed = changed + 1;
        }
        index = index + 1;
    }
    changed
}

proof fn lemma_first_match_unique(stats: Seq<CwdStat>, n: Seq<char>, i: int, j: int)
    requires
        first_match(stats, n, i),
        first_match(stats, n, j),
    ensures
        i == j,
{
    if i < j {
        assert(stats[i].normalized@ != n);
    } else if j < i {
        assert(stats[j].normalized@ != n);
    }
}

/// A stored path resolved against the threads' working directories.
pub fn resolve_stored_path(value: &str, cwd_stats: &[CwdStat]) -> (r: String)
    ensures
        r@ == resolved_path(value@, cwd_stats@),
{
    let normalized = match normalize_comparable_path(value) {
        Some(n) => n,
        None => {
            return String::from_str(value);
        },
    };
    let mut i: usize = 0;
    while i < cwd_stats.len()
        invariant
            i <= cwd_stats@.len(),
            normalize_spec(value@) == Some(normalized@),
            forall|j: int| 0 <= j < i ==> (#[trigger] cwd_stats@[j]).normalized@ != normalized@,
        decreases cwd_stats@.len() - i,
    {
        if cwd_stats[i].normalized == normalized {
            proof {
                assert(first_match(cwd_stats@, normalized@, i as int));
                assert(exists|k: int| first_match(cwd_stats@, normalized@, k));
                let c = choose|i: int| first_match(cwd_stats@, normalized@, i);
                lemma_first_match_unique(cwd_stats@, normalized@, i as int, c);
                assert(resolve_key(value@, normalized@, cwd_stats@) == desktop_path(cwd_stats@[c].cwd@));
            }
            let r = to_desktop_workspace_path(cwd_stats[i].cwd.as_str());
            return r;
        }
        i = i + 1;
    }
    assert(!exists|k: int| first_match(cwd_stats@, normalized@, k));
    to_desktop_workspace_path(value)
}

/// Whether a file name is that of a rollout (`rollout-*.jsonl`).
pub fn is_rollout_file(file_name: &str) -> (r: bool)
    ensures
        r == is_rollout_name(file_name@),
{
    let name = chars_of(file_name);
    let pre: Vec<char> = vec!['r', 'o', 'l', 'l', 'o', 'u', 't', '-'];
    let suf: Vec<char> = vec!['.', 'j', 's', 'o', 'n', 'l'];
    has_prefix(name.as_slice(), pre.as_slice()) && has_suffix(name.as_slice(), suf.as_slice())
}

} // verus!
