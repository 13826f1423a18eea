//! Properties that hold across calls.
use vstd::prelude::*;
use crate::backup::escaped;
use crate::counts::{archived_scope, count_in, counted, lemma_counts_determine_entries, ProviderCounts};
use crate::json::{
    first_member_is, get_spec, is_insert_pos, lemma_member_at, lemma_wf_object, member,
    member_keys, put_member, wf_value, JsonValue,
};
use crate::paths::{
    double_backslash,
    comparable_text, lemma_comparable_text_ascii, lemma_pop_trailing_prefix, normalize_ascii_spec,
    pop_trailing,
    dedupe_spec, desktop_path, differences, first_match, key_among, looks_windows, normalize_spec,
    opt_at, resolved_path, strip_verbatim, unc_verbatim_prefix, verbatim_prefix, CwdStat,
};
use crate::records::{
    record_provider_spec, session_id_cwd_spec, session_id_spec, session_meta_spec,
    with_provider_spec,
};
use crate::rollout::{is_first_newline, rewritten_spec, split_spec};
use crate::text::{
    ascii_lower, ascii_lower_char, is_ascii_text, utf8_len,
    is_ws, lemma_insert_sorted, lemma_lex_total, lemma_lex_transitive, lex_lt, replace_char,
    strictly_sorted, trim, trim_end, trim_start,
};

verus! {

/// Every path that `dedupe_paths` keeps is a path of its input and is not
/// blank; no two kept paths have the same comparable form; and every
/// comparable form of the input is that of a kept path.
pub proof fn law_dedupe_keeps_one_path_per_form(ps: Seq<Seq<char>>)
    ensures
        forall|i: int|
            0 <= i < dedupe_spec(ps).len() ==> normalize_spec(#[trigger] dedupe_spec(ps)[i]) is Some
                && ps.contains(dedupe_spec(ps)[i]),
        forall|i: int, j: int|
            0 <= i < j < dedupe_spec(ps).len() ==> normalize_spec(#[trigger] dedupe_spec(ps)[i])
                != normalize_spec(#[trigger] dedupe_spec(ps)[j]),
        forall|k: int|
            0 <= k < ps.len() && normalize_spec(#[trigger] ps[k]) is Some ==> key_among(
                dedupe_spec(ps),
                normalize_spec(ps[k])->Some_0,
            ),
    decreases ps.len(),
{
    if ps.len() > 0 {
        let pre = ps.drop_last();
        law_dedupe_keeps_one_path_per_form(pre);
        let prev = dedupe_spec(pre);
        let s = dedupe_spec(ps);
        let last = ps.last();
        assert forall|i: int| 0 <= i < prev.len() implies ps.contains(#[trigger] prev[i]) by {
            assert(pre.contains(prev[i]));
            let k = choose|k: int| 0 <= k < pre.len() && pre[k] == prev[i];
            assert(ps[k] == prev[i]);
        }
        match normalize_spec(last) {
            Some(k) => {
                if !key_among(pre, k) {
                    assert(s == prev.push(last));
                    assert forall|i: int| 0 <= i < prev.len() implies normalize_spec(
                        #[trigger] prev[i],
                    ) != Some(k) by {
                        let kk = choose|kk: int| 0 <= kk < pre.len() && pre[kk] == prev[i];
                        if normalize_spec(prev[i]) == Some(k) {
                            assert(normalize_spec(pre[kk]) == Some(k));
                        }
                    }
                    assert(ps.contains(last)) by {
                        assert(ps[ps.len() - 1] == last);
                    }
                    assert forall|i: int, j: int|
                        0 <= i < j < s.len() implies normalize_spec(#[trigger] s[i])
                        != normalize_spec(#[trigger] s[j]) by {
                        if j == prev.len() {
                            assert(s[i] == prev[i]);
                        } else {
                            assert(s[i] == prev[i] && s[j] == prev[j]);
                        }
                    }
                    assert forall|kk: int|
                        0 <= kk < ps.len() && normalize_spec(#[trigger] ps[kk]) is Some implies key_among(
                        s,
                        normalize_spec(ps[kk])->Some_0,
                    ) by {
                        if kk < pre.len() {
                            assert(pre[kk] == ps[kk]);
                            let w = choose|w: int|
                                0 <= w < prev.len() && #[trigger] normalize_spec(prev[w]) == Some(
                                    normalize_spec(pre[kk])->Some_0,
                                );
                            assert(s[w] == prev[w]);
                        } else {
                            assert(s[prev.len() as int] == last);
                        }
                    }
                } else {
                    assert(s == prev);
                    assert forall|kk: int|
                        0 <= kk < ps.len() && normalize_spec(#[trigger] ps[kk]) is Some implies key_among(
                        s,
                        normalize_spec(ps[kk])->Some_0,
                    ) by {
                        if kk < pre.len() {
                            assert(pre[kk] == ps[kk]);
                        } else {
                            let j = choose|j: int|
                                0 <= j < pre.len() && #[trigger] normalize_spec(pre[j]) == Some(k);
                            assert(normalize_spec(pre[j]) is Some);
                        }
                    }
                }
            },
            None => {
                assert(s == prev);
                assert forall|kk: int|
                    0 <= kk < ps.len() && normalize_spec(#[trigger] ps[kk]) is Some implies key_among(
                    s,
                    normalize_spec(ps[kk])->Some_0,
                ) by {
                    if kk < pre.len() {
                        assert(pre[kk] == ps[kk]);
                    }
                }
            },
        }
    }
}

proof fn lemma_dedupe_of_distinct(ps: Seq<Seq<char>>)
    requires
        forall|i: int| 0 <= i < ps.len() ==> normalize_spec(#[trigger] ps[i]) is Some,
        forall|i: int, j: int|
            0 <= i < j < ps.len() ==> normalize_spec(#[trigger] ps[i]) != normalize_spec(
                #[trigger] ps[j],
            ),
    ensures
        dedupe_spec(ps) == ps,
    decreases ps.len(),
{
    if ps.len() > 0 {
        let pre = ps.drop_last();
        assert forall|i: int| 0 <= i < pre.len() implies normalize_spec(#[trigger] pre[i]) is Some by {
            assert(pre[i] == ps[i]);
        }
        assert forall|i: int, j: int|
            0 <= i < j < pre.len() implies normalize_spec(#[trigger] pre[i]) != normalize_spec(
            #[trigger] pre[j],
        ) by {
            assert(pre[i] == ps[i] && pre[j] == ps[j]);
        }
        lemma_dedupe_of_distinct(pre);
        let k = normalize_spec(ps.last())->Some_0;
        assert(normalize_spec(ps[ps.len() - 1]) is Some);
        if key_among(pre, k) {
            let j = choose|j: int| 0 <= j < pre.len() && #[trigger] normalize_spec(pre[j]) == Some(k);
            assert(pre[j] == ps[j]);
            assert(normalize_spec(ps[j]) != normalize_spec(ps[ps.len() - 1]));
        }
        assert(pre.push(ps.last()) =~= ps);
    }
}

/// Removing duplicate paths twice removes nothing more.
pub proof fn law_dedupe_idempotent(ps: Seq<Seq<char>>)
    ensures
        dedupe_spec(dedupe_spec(ps)) == dedupe_spec(ps),
{
    law_dedupe_keeps_one_path_per_form(ps);
    lemma_dedupe_of_distinct(dedupe_spec(ps));
}

/// A path list differs from itself at no position.
pub proof fn law_no_changes_against_itself(a: Seq<Seq<char>>, k: nat)
    ensures
        differences(a, a, k) == 0,
    decreases k,
{
    if k > 0 {
        law_no_changes_against_itself(a, (k - 1) as nat);
    }
}

/// The number of changed positions does not depend on which list is the
/// earlier one.
pub proof fn law_changes_symmetric(a: Seq<Seq<char>>, b: Seq<Seq<char>>, k: nat)
    ensures
        differences(a, b, k) == differences(b, a, k),
    decreases k,
{
    if k > 0 {
        law_changes_symmetric(a, b, (k - 1) as nat);
    }
}

proof fn lemma_trim_end_last(s: Seq<char>)
    ensures
        trim_end(s).len() > 0 ==> !is_ws(trim_end(s).last()),
    decreases s.len(),
{
    if s.len() > 0 && is_ws(s.last()) {
        lemma_trim_end_last(s.drop_last());
    }
}

proof fn lemma_trim_identity(s: Seq<char>)
    requires
        s.len() > 0,
        !is_ws(s[0]),
        !is_ws(s.last()),
    ensures
        trim(s) == s,
{
}

/// A path in verbatim form (after trimming) whose remainder is not empty,
/// does not begin with a blank, is not in verbatim form again once `/`
/// became `\`, and holds `/` only when it looks like a Windows path; any
/// other path qualifies too.
pub open spec fn plain_verbatim_form(v: Seq<char>) -> bool {
    verbatim_prefix().is_prefix_of(trim(v)) ==> {
        let n = strip_verbatim(trim(v));
        &&& n.len() > 0
        &&& !is_ws(n[0])
        &&& !verbatim_prefix().is_prefix_of(replace_char(n, '/', '\\'))
        &&& (looks_windows(n) || !n.contains('/'))
    }
}

proof fn lemma_verbatim_desktop_form(v: Seq<char>)
    requires
        plain_verbatim_form(v),
        trim(v).len() > 0,
        verbatim_prefix().is_prefix_of(trim(v)),
    ensures
        desktop_path(v) == replace_char(strip_verbatim(trim(v)), '/', '\\'),
        desktop_path(v).len() > 0,
        trim(desktop_path(v)) == desktop_path(v),
        !verbatim_prefix().is_prefix_of(desktop_path(v)),
        !unc_verbatim_prefix().is_prefix_of(desktop_path(v)),
        strip_verbatim(desktop_path(v)) == desktop_path(v),
{
    let t = trim(v);
    let n = strip_verbatim(t);
    let d = replace_char(n, '/', '\\');
    lemma_trim_end_last(trim_start(v));
    assert(!is_ws(t.last()));
    if unc_verbatim_prefix().is_prefix_of(t) {
        assert(n == seq!['\\', '\\'] + t.skip(8));
        if t.len() > 8 {
            assert(n.last() == t.last());
        } else {
            assert(n.last() == '\\');
        }
    } else {
        assert(n == t.skip(4));
        assert(n.last() == t.last());
    }
    assert(desktop_path(v) == d);
    assert(!is_ws(d[0]));
    assert(!is_ws(d.last()));
    lemma_trim_identity(d);
    assert(!unc_verbatim_prefix().is_prefix_of(d)) by {
        if unc_verbatim_prefix().is_prefix_of(d) {
            assert(verbatim_prefix().is_prefix_of(d)) by {
                assert forall|i: int| 0 <= i < 4 implies verbatim_prefix()[i] == d[i] by {
                    assert(unc_verbatim_prefix()[i] == d[i]);
                }
            }
        }
    }
}

/// A path's desktop form has the comparable form of the path itself, for
/// every path but those in verbatim form that `plain_verbatim_form` leaves
/// out.
pub proof fn law_desktop_form_keeps_comparable_form(v: Seq<char>)
    requires
        plain_verbatim_form(v),
    ensures
        normalize_spec(desktop_path(v)) == normalize_spec(v),
{
    let t = trim(v);
    if t.len() > 0 && verbatim_prefix().is_prefix_of(t) {
        let n = strip_verbatim(t);
        let d = replace_char(n, '/', '\\');
        lemma_verbatim_desktop_form(v);
        if looks_windows(n) {
            assert(looks_windows(d)) by {
                if n.contains('\\') {
                    let i = choose|i: int| 0 <= i < n.len() && n[i] == '\\';
                    assert(d[i] == '\\');
                } else if n.len() >= 2 && (n[0] as int) < 0x80 && n[1] == ':' {
                    assert(d[1] == ':');
                } else {
                    assert(d[0] == '\\' && d[1] == '\\');
                    assert(d.subrange(0, 2) =~= seq!['\\', '\\']);
                }
            }
            assert(replace_char(d, '/', '\\') =~= d);
        } else {
            assert(d =~= n) by {
                assert forall|i: int| 0 <= i < n.len() implies d[i] == n[i] by {
                    if n[i] == '/' {
                        assert(n.contains('/'));
                    }
                }
            }
        }
    }
}

/// Taking the desktop form of a desktop form changes nothing, for every
/// path but those in verbatim form that `plain_verbatim_form` leaves out.
pub proof fn law_desktop_form_idempotent(v: Seq<char>)
    requires
        plain_verbatim_form(v),
    ensures
        desktop_path(desktop_path(v)) == desktop_path(v),
{
    let t = trim(v);
    if t.len() > 0 && verbatim_prefix().is_prefix_of(t) {
        lemma_verbatim_desktop_form(v);
    }
}

/// Resolving a resolved path gives it back, when each statistic holds the
/// comparable form of its directory and neither the path nor any
/// statistic's directory is in a verbatim form that
/// `plain_verbatim_form` leaves out.
pub proof fn law_resolved_path_idempotent(v: Seq<char>, stats: Seq<CwdStat>)
    requires
        plain_verbatim_form(v),
        forall|i: int|
            0 <= i < stats.len() ==> normalize_spec(#[trigger] stats[i].cwd@) == Some(
                stats[i].normalized@,
            ) && plain_verbatim_form(stats[i].cwd@),
    ensures
        resolved_path(resolved_path(v, stats), stats) == resolved_path(v, stats),
{
    match normalize_spec(v) {
        None => {},
        Some(n) => {
            if exists|i: int| first_match(stats, n, i) {
                let c = choose|i: int| first_match(stats, n, i);
                let r = desktop_path(stats[c].cwd@);
                law_desktop_form_keeps_comparable_form(stats[c].cwd@);
                assert(normalize_spec(r) == Some(n));
            } else {
                law_desktop_form_keeps_comparable_form(v);
                law_desktop_form_idempotent(v);
            }
        },
    }
}

proof fn lemma_first_newline_at(s: Seq<char>, i: int)
    requires
        is_first_newline(s, i),
    ensures
        (choose|k: int| is_first_newline(s, k)) == i,
{
    let k = choose|k: int| is_first_newline(s, k);
    if k < i {
        assert(s[k] != '\n');
    } else if k > i {
        assert(s[i] != '\n');
    }
}

/// Reading back a rollout whose first line was rewritten gives the new
/// first line, the old line ending and the old rest of the file, when the
/// new line holds no line break (and does not end in `\r` before a bare
/// `\n`).
pub proof fn law_rewritten_first_line_reads_back(content: Seq<char>, updated: Seq<char>)
    requires
        !updated.contains('\n'),
        split_spec(content).1 == seq!['\n'] && updated.len() > 0 ==> updated.last() != '\r',
    ensures
        ({
            let (line, sep, rest) = split_spec(content);
            let t = rewritten_spec(content, line, sep, updated)->Some_0;
            &&& rewritten_spec(content, line, sep, updated) is Some
            &&& split_spec(t).0 == updated
            &&& split_spec(t).1 == sep
            &&& t.skip(split_spec(t).2 as int) == content.skip(rest as int)
        }),
{
    let (line, sep, rest) = split_spec(content);
    let r = content.skip(rest as int);
    let t = updated + sep + r;
    assert(rewritten_spec(content, line, sep, updated) == Some(t));
    assert forall|j: int| 0 <= j < updated.len() implies t[j] != '\n' by {
        assert(t[j] == updated[j]);
        if updated[j] == '\n' {
            assert(updated.contains('\n'));
        }
    }
    if exists|i: int| is_first_newline(content, i) {
        let i = choose|i: int| is_first_newline(content, i);
        if i > 0 && content[i - 1] == '\r' {
            let n = updated.len() + 1int;
            assert(t[n - 1] == '\r' && t[n] == '\n');
            assert(is_first_newline(t, n));
            lemma_first_newline_at(t, n);
            assert(t.take(n - 1) =~= updated);
            assert(t.skip(n + 1) =~= r);
        } else {
            let n = updated.len() as int;
            assert(t[n] == '\n');
            assert(is_first_newline(t, n));
            lemma_first_newline_at(t, n);
            if n > 0 {
                assert(t[n - 1] == updated.last());
            }
            assert(t.take(n) =~= updated);
            assert(t.skip(n + 1) =~= r);
        }
    } else {
        assert(r.len() == 0);
        assert(t =~= updated);
        assert forall|k: int| !is_first_newline(t, k) by {
            if 0 <= k < t.len() {
                assert(t[k] != '\n');
            }
        }
        assert(t.skip(t.len() as int) =~= r);
    }
}

proof fn lemma_insert_pos_exists(m: Seq<(Seq<char>, JsonValue)>, key: Seq<char>)
    requires
        strictly_sorted(member_keys(m)),
    ensures
        exists|p: int| is_insert_pos(m, key, p),
    decreases m.len(),
{
    if m.len() == 0 {
        assert(is_insert_pos(m, key, 0));
    } else {
        let pre = m.drop_last();
        assert forall|i: int, j: int|
            0 <= i < j < member_keys(pre).len() implies lex_lt(
            member_keys(pre)[i],
            member_keys(pre)[j],
        ) by {
            assert(member_keys(pre)[i] == member_keys(m)[i]);
            assert(member_keys(pre)[j] == member_keys(m)[j]);
        }
        lemma_insert_pos_exists(pre, key);
        let q = choose|q: int| is_insert_pos(pre, key, q);
        let last = m.len() - 1;
        assert(member_keys(m)[last] == m[last].0);
        assert forall|j: int| 0 <= j < q implies lex_lt(#[trigger] m[j].0, key) by {
            assert(pre[j] == m[j]);
        }
        if q < pre.len() {
            assert(member_keys(m)[q] == m[q].0);
            assert(pre[q] == m[q]);
            assert(!lex_lt(pre[q].0, key));
            if lex_lt(m[last].0, key) {
                lemma_lex_transitive(m[q].0, m[last].0, key);
            }
            assert forall|j: int| q <= j < m.len() implies !lex_lt(#[trigger] m[j].0, key) by {
                if j < last {
                    assert(pre[j] == m[j]);
                }
            }
            assert(is_insert_pos(m, key, q));
        } else if lex_lt(m[last].0, key) {
            assert(is_insert_pos(m, key, m.len() as int));
        } else {
            assert(is_insert_pos(m, key, last));
        }
    }
}

proof fn lemma_no_member(m: Seq<(Seq<char>, JsonValue)>, key: Seq<char>)
    requires
        forall|i: int| 0 <= i < m.len() ==> (#[trigger] m[i]).0 != key,
    ensures
        member(m, key) is None,
{
    assert(!exists|i: int| first_member_is(m, key, i));
}

/// Setting a member of a sorted object keeps it sorted; reading the member
/// back gives the value written, and every other member reads as before.
pub proof fn law_object_member_reads_back(
    m: Seq<(Seq<char>, JsonValue)>,
    key: Seq<char>,
    value: JsonValue,
)
    requires
        strictly_sorted(member_keys(m)),
    ensures
        strictly_sorted(member_keys(put_member(m, key, value))),
        member(put_member(m, key, value), key) == Some(value),
        forall|other: Seq<char>|
            other != key ==> #[trigger] member(put_member(m, key, value), other) == member(
                m,
                other,
            ),
{
    lemma_insert_pos_exists(m, key);
    let p = choose|p: int| is_insert_pos(m, key, p);
    let t = put_member(m, key, value);
    if p < m.len() && m[p].0 == key {
        assert(t == m.update(p, (key, value)));
        assert(member_keys(t) =~= member_keys(m));
        lemma_member_at(t, p);
        assert forall|other: Seq<char>| other != key implies #[trigger] member(t, other) == member(
            m,
            other,
        ) by {
            if exists|i: int| 0 <= i < m.len() && m[i].0 == other {
                let i = choose|i: int| 0 <= i < m.len() && m[i].0 == other;
                assert(t[i] == m[i]);
                lemma_member_at(t, i);
                lemma_member_at(m, i);
            } else {
                lemma_no_member(m, other);
                assert forall|i: int| 0 <= i < t.len() implies (#[trigger] t[i]).0 != other by {
                    if i != p {
                        assert(t[i] == m[i]);
                    }
                }
                lemma_no_member(t, other);
            }
        }
    } else {
        assert(t == m.insert(p, (key, value)));
        let ks = member_keys(m);
        assert forall|k: int| p <= k < ks.len() implies lex_lt(key, #[trigger] ks[k]) by {
            assert(ks[k] == m[k].0);
            assert(ks[p] == m[p].0);
            lemma_lex_total(m[p].0, key);
            if k > p {
                lemma_lex_transitive(key, m[p].0, m[k].0);
            }
        }
        assert forall|k: int| 0 <= k < p implies lex_lt(#[trigger] ks[k], key) by {
            assert(ks[k] == m[k].0);
        }
        lemma_insert_sorted(ks, p, key);
        assert(member_keys(t) =~= ks.insert(p, key));
        lemma_member_at(t, p);
        assert forall|other: Seq<char>| other != key implies #[trigger] member(t, other) == member(
            m,
            other,
        ) by {
            if exists|i: int| 0 <= i < m.len() && m[i].0 == other {
                let i = choose|i: int| 0 <= i < m.len() && m[i].0 == other;
                if i < p {
                    assert(t[i] == m[i]);
                    lemma_member_at(t, i);
                } else {
                    assert(t[i + 1] == m[i]);
                    lemma_member_at(t, i + 1);
                }
                lemma_member_at(m, i);
            } else {
                lemma_no_member(m, other);
                assert forall|i: int| 0 <= i < t.len() implies (#[trigger] t[i]).0 != other by {
                    if i < p {
                        assert(t[i] == m[i]);
                    } else if i > p {
                        assert(t[i] == m[i - 1]);
                    }
                }
                lemma_no_member(t, other);
            }
        }
    }
}

/// Rewriting a well-formed session record for a provider always succeeds;
/// the record then names that provider, is still a session record, and
/// keeps its thread id and working directory.
pub proof fn law_provider_rewrite_names_target(v: JsonValue, target: Seq<char>)
    requires
        wf_value(v),
        session_meta_spec(v),
    ensures
        with_provider_spec(v, target) is Some,
        record_provider_spec(with_provider_spec(v, target)->Some_0) == target,
        session_meta_spec(with_provider_spec(v, target)->Some_0),
        session_id_spec(with_provider_spec(v, target)->Some_0) == session_id_spec(v),
        session_id_cwd_spec(with_provider_spec(v, target)->Some_0) == session_id_cwd_spec(v),
{
    reveal_strlit("type");
    reveal_strlit("payload");
    reveal_strlit("model_provider");
    reveal_strlit("id");
    reveal_strlit("cwd");
    let m = v->Object_0;
    lemma_wf_object(m);
    let c = choose|i: int| first_member_is(m, "payload"@, i);
    assert(wf_value(m[c].1));
    let pm = m[c].1->Object_0;
    lemma_wf_object(pm);
    let npm = put_member(pm, "model_provider"@, JsonValue::Str(target));
    law_object_member_reads_back(pm, "model_provider"@, JsonValue::Str(target));
    let nm = put_member(m, "payload"@, JsonValue::Object(npm));
    law_object_member_reads_back(m, "payload"@, JsonValue::Object(npm));
    let w = JsonValue::Object(nm);
    assert(with_provider_spec(v, target) == Some(w));
    assert(get_spec(w, "payload"@) == Some(JsonValue::Object(npm)));
    assert(member(nm, "type"@) == member(m, "type"@));
    assert("id"@ != "model_provider"@) by {
        assert("id"@.len() != "model_provider"@.len());
    }
    assert("cwd"@ != "model_provider"@) by {
        assert("cwd"@.len() != "model_provider"@.len());
    }
    assert(member(npm, "id"@) == member(pm, "id"@));
    assert(member(npm, "cwd"@) == member(pm, "cwd"@));
}

/// An escaped text holds no line break, so the metadata written with it
/// keeps one member per line.
pub proof fn law_escaped_has_no_line_break(s: Seq<char>)
    ensures
        !escaped(s).contains('\n'),
    decreases s.len(),
{
    if s.len() > 0 {
        law_escaped_has_no_line_break(s.drop_last());
        let pre = escaped(s.drop_last());
        let e = escaped(s);
        assert forall|i: int| 0 <= i < e.len() implies e[i] != '\n' by {
            if i < pre.len() {
                assert(e[i] == pre[i]);
            }
        }
    }
}

proof fn lemma_differences_zero(a: Seq<Seq<char>>, b: Seq<Seq<char>>, k: nat)
    ensures
        differences(a, b, k) == 0 <==> forall|i: int| 0 <= i < k ==> opt_at(a, i) == opt_at(b, i),
    decreases k,
{
    if k > 0 {
        lemma_differences_zero(a, b, (k - 1) as nat);
    }
}

/// Two path lists differ at no position exactly when they are the same
/// list (positions counted up to the longer list).
pub proof fn law_no_changes_iff_same_list(a: Seq<Seq<char>>, b: Seq<Seq<char>>)
    ensures
        differences(a, b, if a.len() >= b.len() { a.len() } else { b.len() }) == 0 <==> a == b,
{
    let k = if a.len() >= b.len() {
        a.len()
    } else {
        b.len()
    };
    lemma_differences_zero(a, b, k);
    if differences(a, b, k) == 0 {
        if a.len() < b.len() {
            assert(opt_at(a, a.len() as int) != opt_at(b, a.len() as int));
        } else if b.len() < a.len() {
            assert(opt_at(a, b.len() as int) != opt_at(b, b.len() as int));
        }
        assert forall|i: int| 0 <= i < a.len() implies a[i] == b[i] by {
            assert(opt_at(a, i) == opt_at(b, i));
        }
        assert(a =~= b);
    }
}

/// Counting two rollouts gives the same counts in either order.
pub proof fn law_increments_commute(
    c: ProviderCounts,
    a1: ProviderCounts,
    a2: ProviderCounts,
    b1: ProviderCounts,
    b2: ProviderCounts,
    s1: Seq<char>,
    p1: Seq<char>,
    s2: Seq<char>,
    p2: Seq<char>,
)
    requires
        c.wf(),
        counted(c, a1, s1, p1),
        counted(a1, a2, s2, p2),
        counted(c, b1, s2, p2),
        counted(b1, b2, s1, p1),
    ensures
        a2.sessions@ == b2.sessions@,
        a2.archived_sessions@ == b2.archived_sessions@,
{
    assert forall|k: Seq<char>| a2.sessions.count(k) == b2.sessions.count(k) by {
        let x = (a1.sessions.count(k), a2.sessions.count(k), b1.sessions.count(k), b2.sessions.count(k));
        if s1 == archived_scope() {
            assert(a1.sessions.count(k) == c.sessions.count(k));
            assert(b2.sessions.count(k) == b1.sessions.count(k));
        }
        if s2 == archived_scope() {
            assert(b1.sessions.count(k) == c.sessions.count(k));
            assert(a2.sessions.count(k) == a1.sessions.count(k));
        }
    }
    assert forall|k: Seq<char>| a2.archived_sessions.count(k) == b2.archived_sessions.count(k) by {
        let x = (
            a1.archived_sessions.count(k),
            a2.archived_sessions.count(k),
            b1.archived_sessions.count(k),
            b2.archived_sessions.count(k),
        );
        if s1 != archived_scope() {
            assert(a1.archived_sessions.count(k) == c.archived_sessions.count(k));
            assert(b2.archived_sessions.count(k) == b1.archived_sessions.count(k));
        }
        if s2 != archived_scope() {
            assert(b1.archived_sessions.count(k) == c.archived_sessions.count(k));
            assert(a2.archived_sessions.count(k) == a1.archived_sessions.count(k));
        }
    }
    assert forall|k: Seq<char>| count_in(a2.sessions@, k) == count_in(b2.sessions@, k) by {
        assert(a2.sessions.count(k) == b2.sessions.count(k));
    }
    assert forall|k: Seq<char>|
        count_in(a2.archived_sessions@, k) == count_in(b2.archived_sessions@, k) by {
        assert(a2.archived_sessions.count(k) == b2.archived_sessions.count(k));
    }
    lemma_counts_determine_entries(a2.sessions@, b2.sessions@);
    lemma_counts_determine_entries(a2.archived_sessions@, b2.archived_sessions@);
}

proof fn lemma_ascii_lower_char(c: char)
    ensures
        ascii_lower_char(ascii_lower_char(c)) == ascii_lower_char(c),
        (ascii_lower_char(c) == '\\') == (c == '\\'),
        (ascii_lower_char(c) == '/') == (c == '/'),
        (ascii_lower_char(c) == ':') == (c == ':'),
        (c as u32) < 0x80 ==> (ascii_lower_char(c) as u32) < 0x80,
{
}

proof fn lemma_ascii_utf8_len(s: Seq<char>)
    requires
        is_ascii_text(s),
    ensures
        utf8_len(s) == s.len(),
    decreases s.len(),
{
    if s.len() > 0 {
        assert forall|i: int| 0 <= i < s.drop_last().len() implies (s.drop_last()[i] as u32) < 0x80 by {
            assert(s.drop_last()[i] == s[i]);
        }
        lemma_ascii_utf8_len(s.drop_last());
        assert((s[s.len() - 1] as u32) < 0x80);
    }
}

proof fn lemma_pop_trailing_stops(s: Seq<char>, c: char, min: nat)
    ensures
        !(pop_trailing(s, c, min).len() > 0 && pop_trailing(s, c, min).last() == c && utf8_len(
            pop_trailing(s, c, min),
        ) > min),
    decreases s.len(),
{
    if s.len() > 0 && s.last() == c && utf8_len(s) > min {
        lemma_pop_trailing_stops(s.drop_last(), c, min);
    }
}

/// Lower-casing an ASCII text twice changes nothing more, and keeps `\`,
/// `/` and `:` where they were.
proof fn lemma_ascii_lower_text(w: Seq<char>)
    requires
        is_ascii_text(w),
    ensures
        ascii_lower(ascii_lower(w)) == ascii_lower(w),
        is_ascii_text(ascii_lower(w)),
        ascii_lower(w).len() == w.len(),
        forall|i: int|
            0 <= i < w.len() ==> (ascii_lower(w)[i] == '\\') == (w[i] == '\\') && (ascii_lower(w)[i]
                == '/') == (w[i] == '/') && (ascii_lower(w)[i] == ':') == (w[i] == ':'),
{
    let n = ascii_lower(w);
    assert forall|i: int| 0 <= i < w.len() implies (n[i] == '\\') == (w[i] == '\\') && (n[i] == '/')
        == (w[i] == '/') && (n[i] == ':') == (w[i] == ':') && (n[i] as u32) < 0x80
        && ascii_lower_char(n[i]) == n[i] by {
        lemma_ascii_lower_char(w[i]);
    }
    assert(ascii_lower(n) =~= n);
}

/// Normalising the comparable form of an ASCII path gives it back, when
/// that form is not empty, has no surrounding blanks and is not in
/// verbatim form.
pub proof fn law_ascii_comparable_form_idempotent(v: Seq<char>, n: Seq<char>)
    requires
        is_ascii_text(v),
        normalize_ascii_spec(v) == Some(n),
        n.len() > 0,
        trim(n) == n,
        !verbatim_prefix().is_prefix_of(n),
    ensures
        normalize_ascii_spec(n) == Some(n),
{
    let t = trim(v);
    let m = strip_verbatim(t);
    let w = comparable_text(v)->Some_0;
    lemma_comparable_text_ascii(v);
    lemma_ascii_lower_text(w);
    assert(n == ascii_lower(w));
    lemma_ascii_utf8_len(w);
    lemma_ascii_utf8_len(n);
    assert(!unc_verbatim_prefix().is_prefix_of(n)) by {
        if unc_verbatim_prefix().is_prefix_of(n) {
            assert forall|i: int| 0 <= i < 4 implies verbatim_prefix()[i] == n[i] by {
                assert(unc_verbatim_prefix()[i] == n[i]);
            }
            assert(verbatim_prefix().is_prefix_of(n));
        }
    }
    assert(strip_verbatim(n) == n);
    if looks_windows(m) {
        let rm = replace_char(m, '/', '\\');
        lemma_pop_trailing_prefix(rm, '\\', 3);
        lemma_pop_trailing_stops(rm, '\\', 3);
        assert(w == pop_trailing(rm, '\\', 3));
        assert forall|i: int| 0 <= i < n.len() implies n[i] != '/' by {
            assert(w[i] == rm[i]);
        }
        assert(replace_char(n, '/', '\\') =~= n);
        if n.len() > 0 {
            assert(n.last() == n[n.len() - 1]);
            assert((n.last() == '\\') == (w.last() == '\\'));
        }
        assert(pop_trailing(n, '\\', 3) == n);
        assert(pop_trailing(n, '/', 1) == n);
    } else {
        lemma_pop_trailing_prefix(m, '/', 1);
        lemma_pop_trailing_stops(m, '/', 1);
        assert(w == pop_trailing(m, '/', 1));
        assert(is_ascii_text(m));
        assert(!looks_windows(n)) by {
            if double_backslash().is_prefix_of(n) {
                assert(w[0] == m[0] && w[1] == m[1]);
                assert(m.subrange(0, 2) =~= seq!['\\', '\\']);
            }
            if n.contains('\\') {
                let i = choose|i: int| 0 <= i < n.len() && n[i] == '\\';
                assert(w[i] == m[i]);
            }
            if n.len() >= 2 && (n[0] as int) < 0x80 && n[1] == ':' {
                assert(w[1] == m[1]);
                assert((m[0] as u32) < 0x80);
            }
        }
        if n.len() > 0 {
            assert(n.last() == n[n.len() - 1]);
            assert((n.last() == '/') == (w.last() == '/'));
        }
        assert(pop_trailing(n, '/', 1) == n);
    }
}

} // verus!
