//! Properties of the repairs a synchronisation makes: what a backup holds,
//! what the database statements set, which threads count as stored in
//! verbatim form, what the project order keeps, and which provider
//! `config.toml` names.
use vstd::prelude::*;
use crate::backup::backup_entries_spec;
use crate::config::{assigned_provider, config_current, header_seen, is_first_eq};
use crate::json::{member, JsonValue};
use crate::laws::law_dedupe_keeps_one_path_per_form;
use crate::paths::{desktop_path, key_among, normalize_spec, resolved_path, verbatim_prefix, CwdStat};
use crate::sqlite::flags_needing_repair;
use crate::sync::{statement_spec, StateStatement};
use crate::text::{strip_char_end, strip_char_start, trim, trim_end, trim_matches, trim_start};
use crate::visibility::{
    count_at_most, exact_matches, match_ranks, row_key, verbatim_matches, visibility_of,
    ProjectVisibility, ThreadRow,
};
use crate::workspace::{next_order_spec, next_saved_spec, path_array_spec, resolve_all};

verus! {

/// The names of a backup's entries.
pub open spec fn entry_names(e: Seq<(Seq<char>, bool)>) -> Seq<Seq<char>> {
    e.map_values(|x: (Seq<char>, bool)| x.0)
}

/// A backup holds each of the eight entries of the Codex home directory
/// that a sync touches, each once: both session directories, the state
/// database with its `-wal` and `-shm` files, `config.toml`, and the global
/// state with its `.bak` copy.  Exactly the three database files are marked
/// as database files.
pub proof fn law_backup_holds_each_entry_once()
    ensures
        entry_names(backup_entries_spec()).len() == 8,
        forall|i: int, j: int|
            0 <= i < j < 8 ==> entry_names(backup_entries_spec())[i] != entry_names(
                backup_entries_spec(),
            )[j],
        entry_names(backup_entries_spec()).contains("sessions"@),
        entry_names(backup_entries_spec()).contains("archived_sessions"@),
        entry_names(backup_entries_spec()).contains("state_5.sqlite"@),
        entry_names(backup_entries_spec()).contains("state_5.sqlite-wal"@),
        entry_names(backup_entries_spec()).contains("state_5.sqlite-shm"@),
        entry_names(backup_entries_spec()).contains("config.toml"@),
        entry_names(backup_entries_spec()).contains(".codex-global-state.json"@),
        entry_names(backup_entries_spec()).contains(".codex-global-state.json.bak"@),
        forall|i: int|
            0 <= i < 8 ==> (#[trigger] backup_entries_spec()[i]).1 == (backup_entries_spec()[i].0
                == "state_5.sqlite"@ || backup_entries_spec()[i].0 == "state_5.sqlite-wal"@
                || backup_entries_spec()[i].0 == "state_5.sqlite-shm"@),
{
    reveal_strlit("sessions");
    reveal_strlit("archived_sessions");
    reveal_strlit("state_5.sqlite");
    reveal_strlit("state_5.sqlite-wal");
    reveal_strlit("state_5.sqlite-shm");
    reveal_strlit("config.toml");
    reveal_strlit(".codex-global-state.json");
    reveal_strlit(".codex-global-state.json.bak");
    let e = backup_entries_spec();
    let n = entry_names(e);
    assert(n[0] == "sessions"@);
    assert(n[1] == "archived_sessions"@);
    assert(n[2] == "state_5.sqlite"@);
    assert(n[3] == "state_5.sqlite-wal"@);
    assert(n[4] == "state_5.sqlite-shm"@);
    assert(n[5] == "config.toml"@);
    assert(n[6] == ".codex-global-state.json"@);
    assert(n[7] == ".codex-global-state.json.bak"@);
    assert(n[3][15] != n[4][15]);
    assert(n[2].len() != n[3].len());
    assert(n[2].len() != n[4].len());
    assert(n[0].len() != n[5].len());
    assert(n[1].len() != n[3].len());
    assert(n[1].len() != n[4].len());
}

/// The statement run for each thread with user activity sets that
/// thread's `has_user_event` to 1, the one value the repair count takes as
/// repaired, and only on rows of that id whose flag is not yet 1.
pub proof fn law_user_event_statement_sets_flag()
    ensures
        ("UPDATE threads SET has_user_event = 1 WHERE id = ?1 AND "@).is_prefix_of(
            statement_spec(StateStatement::SetUserEvent),
        ),
        ("COALESCE(has_user_event, 0) <> 1"@).is_suffix_of(
            statement_spec(StateStatement::SetUserEvent),
        ),
        flags_needing_repair(seq![Some(1i64)]) == 0,
        forall|v: i64| v != 1 ==> flags_needing_repair(seq![Some(v)]) == 1,
{
    reveal_strlit("UPDATE threads SET has_user_event = 1 WHERE id = ?1 AND COALESCE(has_user_event, 0) <> 1");
    reveal_strlit("UPDATE threads SET has_user_event = 1 WHERE id = ?1 AND ");
    reveal_strlit("COALESCE(has_user_event, 0) <> 1");
    let st = statement_spec(StateStatement::SetUserEvent);
    let p = "UPDATE threads SET has_user_event = 1 WHERE id = ?1 AND "@;
    let q = "COALESCE(has_user_event, 0) <> 1"@;
    assert(st.take(p.len() as int) =~= p);
    assert(st.skip(st.len() - q.len()) =~= q);
    reveal_with_fuel(flags_needing_repair, 2);
    assert(seq![Some(1i64)].drop_last() =~= Seq::<Option<i64>>::empty());
    assert(seq![Some(1i64)].last() == Some(1i64));
    assert forall|v: i64| v != 1 implies flags_needing_repair(seq![Some(v)]) == 1 by {
        reveal_with_fuel(flags_needing_repair, 2);
        assert(seq![Some(v)].drop_last() =~= Seq::<Option<i64>>::empty());
        assert(seq![Some(v)].last() == Some(v));
    }
}

/// The statement run for each thread with a working directory sets that
/// thread's `cwd` to the directory (`?1`) for the thread id (`?2`).
pub proof fn law_cwd_statement_sets_directory()
    ensures
        ("UPDATE threads SET cwd = ?1 WHERE id = ?2 AND "@).is_prefix_of(
            statement_spec(StateStatement::SetThreadCwd),
        ),
{
    reveal_strlit("UPDATE threads SET cwd = ?1 WHERE id = ?2 AND COALESCE(cwd, '') <> ?1");
    reveal_strlit("UPDATE threads SET cwd = ?1 WHERE id = ?2 AND ");
    let st = statement_spec(StateStatement::SetThreadCwd);
    let p = "UPDATE threads SET cwd = ?1 WHERE id = ?2 AND "@;
    assert(st.take(p.len() as int) =~= p);
}

/// The provider update sets `model_provider` to the target (`?1`) on
/// exactly the rows that the count before it counts: both end with one
/// and the same condition.
pub proof fn law_provider_update_changes_the_counted_rows()
    ensures
        ({
            let count = statement_spec(StateStatement::CountThreadProviders);
            let update = statement_spec(StateStatement::UpdateThreadProviders);
            let c = "SELECT COUNT(*) FROM threads"@;
            let u = "UPDATE threads SET model_provider = ?1"@;
            &&& c.is_prefix_of(count)
            &&& u.is_prefix_of(update)
            &&& count.skip(c.len() as int) == update.skip(u.len() as int)
            &&& (" WHERE COALESCE(model_provider, '') <> ?1"@) == count.skip(c.len() as int)
        }),
{
    reveal_strlit("SELECT COUNT(*) FROM threads WHERE COALESCE(model_provider, '') <> ?1");
    reveal_strlit("UPDATE threads SET model_provider = ?1 WHERE COALESCE(model_provider, '') <> ?1");
    reveal_strlit("SELECT COUNT(*) FROM threads");
    reveal_strlit("UPDATE threads SET model_provider = ?1");
    reveal_strlit(" WHERE COALESCE(model_provider, '') <> ?1");
    let count = statement_spec(StateStatement::CountThreadProviders);
    let update = statement_spec(StateStatement::UpdateThreadProviders);
    let c = "SELECT COUNT(*) FROM threads"@;
    let u = "UPDATE threads SET model_provider = ?1"@;
    assert(count.take(c.len() as int) =~= c);
    assert(update.take(u.len() as int) =~= u);
    assert(count.skip(c.len() as int) =~= " WHERE COALESCE(model_provider, '') <> ?1"@);
    assert(update.skip(u.len() as int) =~= " WHERE COALESCE(model_provider, '') <> ?1"@);
}

/// The number of threads among the first `k` stored with the verbatim
/// prefix `\\?\`.
pub open spec fn prefixed_rows(rows: Seq<ThreadRow>, k: nat) -> nat
    decreases k,
{
    if k == 0 {
        0
    } else {
        prefixed_rows(rows, (k - 1) as nat) + if verbatim_prefix().is_prefix_of(rows[k - 1].cwd@) {
            1nat
        } else {
            0nat
        }
    }
}

proof fn lemma_verbatim_bounds(rows: Seq<ThreadRow>, n: Seq<char>, k: nat)
    requires
        k <= rows.len(),
    ensures
        verbatim_matches(rows, n, k) <= match_ranks(rows, n, k).len(),
        verbatim_matches(rows, n, k) <= prefixed_rows(rows, k),
        (forall|i: int| 0 <= i < k ==> verbatim_prefix().is_prefix_of(#[trigger] rows[i].cwd@))
            ==> verbatim_matches(rows, n, k) == match_ranks(rows, n, k).len(),
    decreases k,
{
    if k > 0 {
        lemma_verbatim_bounds(rows, n, (k - 1) as nat);
        if forall|i: int| 0 <= i < k ==> verbatim_prefix().is_prefix_of(#[trigger] rows[i].cwd@) {
            assert(verbatim_prefix().is_prefix_of(rows[k - 1].cwd@));
        }
    }
}

/// Of a root's threads, those counted as stored in verbatim form are
/// threads stored with the `\\?\` prefix: never more than the root's
/// threads nor than all threads with that prefix, none when no thread has
/// it, and all of the root's threads when every thread has it.
pub proof fn law_verbatim_rows_have_the_prefix(v: ProjectVisibility, root: Seq<char>, rows: Seq<ThreadRow>)
    requires
        visibility_of(v, root, rows),
    ensures
        v.verbatim_cwd_rows <= v.interactive_threads,
        v.verbatim_cwd_rows <= prefixed_rows(rows, rows.len()),
        (forall|i: int| 0 <= i < rows.len() ==> !verbatim_prefix().is_prefix_of(#[trigger] rows[i].cwd@))
            ==> v.verbatim_cwd_rows == 0,
        (forall|i: int| 0 <= i < rows.len() ==> verbatim_prefix().is_prefix_of(#[trigger] rows[i].cwd@))
            ==> v.verbatim_cwd_rows == v.interactive_threads,
{
    let n = normalize_spec(desktop_path(root))->Some_0;
    lemma_verbatim_bounds(rows, n, rows.len());
    if forall|i: int| 0 <= i < rows.len() ==> !verbatim_prefix().is_prefix_of(#[trigger] rows[i].cwd@) {
        lemma_no_prefixed_rows(rows, rows.len());
    }
}

proof fn lemma_no_prefixed_rows(rows: Seq<ThreadRow>, k: nat)
    requires
        k <= rows.len(),
        forall|i: int| 0 <= i < rows.len() ==> !verbatim_prefix().is_prefix_of(#[trigger] rows[i].cwd@),
    ensures
        prefixed_rows(rows, k) == 0,
    decreases k,
{
    if k > 0 {
        lemma_no_prefixed_rows(rows, (k - 1) as nat);
        assert(!verbatim_prefix().is_prefix_of(rows[k - 1].cwd@));
    }
}

/// The saved roots that a global state lists.
pub open spec fn saved_roots(m: Seq<(Seq<char>, JsonValue)>) -> Seq<Seq<char>> {
    path_array_spec(member(m, "electron-saved-workspace-roots"@))
}

proof fn lemma_dedupe_covers(ps: Seq<Seq<char>>, i: int)
    requires
        0 <= i < ps.len(),
        normalize_spec(ps[i]) is Some,
    ensures
        key_among(crate::paths::dedupe_spec(ps), normalize_spec(ps[i])->Some_0),
{
    law_dedupe_keeps_one_path_per_form(ps);
}

/// The repaired project order covers every saved root: the comparable
/// form of each saved root, once resolved, is that of some root of the
/// repaired project order (as it is of some repaired saved root).
pub proof fn law_project_order_covers_saved_roots(m: Seq<(Seq<char>, JsonValue)>, stats: Seq<CwdStat>)
    ensures
        forall|i: int|
            0 <= i < saved_roots(m).len() && normalize_spec(
                resolved_path(#[trigger] saved_roots(m)[i], stats),
            ) is Some ==> key_among(
                next_order_spec(m, stats),
                normalize_spec(resolved_path(saved_roots(m)[i], stats))->Some_0,
            ) && key_among(
                next_saved_spec(m, stats),
                normalize_spec(resolved_path(saved_roots(m)[i], stats))->Some_0,
            ),
{
    let saved = saved_roots(m);
    let order = path_array_spec(member(m, "project-order"@));
    let active = path_array_spec(member(m, "active-workspace-roots"@));
    assert forall|i: int|
        0 <= i < saved.len() && normalize_spec(resolved_path(#[trigger] saved[i], stats)) is Some implies key_among(
        next_order_spec(m, stats),
        normalize_spec(resolved_path(saved[i], stats))->Some_0,
    ) && key_among(
        next_saved_spec(m, stats),
        normalize_spec(resolved_path(saved[i], stats))->Some_0,
    ) by {
        let k = normalize_spec(resolved_path(saved[i], stats))->Some_0;
        if order.len() == 0 {
            let all = resolve_all(saved + active, stats);
            assert(all[i] == resolved_path(saved[i], stats));
            lemma_dedupe_covers(all, i);
            let ns = next_saved_spec(m, stats);
            let j = choose|j: int| 0 <= j < ns.len() && #[trigger] normalize_spec(ns[j]) == Some(k);
            lemma_dedupe_covers(ns, j);
        } else {
            let all = resolve_all(order + saved + active, stats);
            assert(all[order.len() + i] == resolved_path(saved[i], stats));
            lemma_dedupe_covers(all, order.len() + i);
            let os = resolve_all(order + saved, stats);
            assert(os[order.len() + i] == resolved_path(saved[i], stats));
            lemma_dedupe_covers(os, order.len() + i);
        }
    }
}

proof fn lemma_strip_noop(id: Seq<char>, c: char)
    requires
        !id.contains(c),
    ensures
        strip_char_start(id, c) == id,
        strip_char_end(id, c) == id,
{
    if id.len() > 0 {
        assert(id[0] != c) by {
            if id[0] == c {
                assert(id.contains(c));
            }
        }
        assert(id.last() != c) by {
            if id.last() == c {
                assert(id[id.len() - 1] == c);
                assert(id.contains(c));
            }
        }
    }
}

/// Trimming `c` off `c<id>c`, where `id` holds no `c`, gives `id`.
proof fn lemma_trim_matches_quoted(id: Seq<char>, c: char)
    requires
        !id.contains(c),
    ensures
        trim_matches(seq![c] + id + seq![c], c) == id,
{
    let x = seq![c] + id + seq![c];
    let tail = id + seq![c];
    lemma_strip_noop(id, c);
    assert(x[0] == c);
    assert(x.drop_first() =~= tail);
    assert(strip_char_start(x, c) == strip_char_start(tail, c));
    if id.len() > 0 {
        assert(tail[0] == id[0]);
        assert(strip_char_start(tail, c) == tail);
        assert(tail.last() == c);
        assert(tail.drop_last() =~= id);
        assert(strip_char_end(tail, c) == strip_char_end(id, c));
    } else {
        assert(tail =~= seq![c]);
        assert(tail[0] == c);
        assert(tail.drop_first() =~= Seq::<char>::empty());
        assert(strip_char_start(tail, c) == strip_char_start(Seq::<char>::empty(), c));
        assert(strip_char_start(tail, c) =~= Seq::<char>::empty());
        assert(id =~= Seq::<char>::empty());
    }
}

/// A quoted text without quotes inside, once its quotes are trimmed as
/// `config.toml` values are (double quotes, then single ones), is the text
/// between the quotes.
proof fn lemma_unquote(id: Seq<char>, q: char)
    requires
        q == '\'' || q == '"',
        !id.contains('\''),
        !id.contains('"'),
    ensures
        trim_matches(trim_matches(seq![q] + id + seq![q], '"'), '\'') == id,
{
    let x = seq![q] + id + seq![q];
    if q == '"' {
        lemma_trim_matches_quoted(id, '"');
        lemma_strip_noop(id, '\'');
    } else {
        assert(x[0] == q);
        assert(strip_char_start(x, '"') == x);
        assert(x.last() == q);
        assert(strip_char_end(x, '"') == x);
        lemma_trim_matches_quoted(id, '\'');
    }
}

/// The provider `config.toml` names on a root-level line
/// `model_provider = '<id>'` (or with double quotes) is exactly `<id>`,
/// whatever root-level lines come before it, when `<id>` holds no quote.
pub proof fn law_quoted_provider_is_read(ls: Seq<Seq<char>>, id: Seq<char>, q: char)
    requires
        !header_seen(ls),
        q == '\'' || q == '"',
        !id.contains('\''),
        !id.contains('"'),
    ensures
        config_current(ls.push("model_provider = "@ + seq![q] + id + seq![q])) == id,
{
    reveal_strlit("model_provider = ");
    reveal_strlit("model_provider");
    let line = "model_provider = "@ + seq![q] + id + seq![q];
    let lines = ls.push(line);
    assert(lines.drop_last() =~= ls);
    assert(lines.last() == line);
    assert(line[0] == 'm');
    assert(line.last() == q);
    assert(trim_start(line) == line);
    assert(trim_end(line) == line);
    assert(trim(line) == line);
    assert(is_first_eq(line, 15));
    let e = choose|i: int| is_first_eq(line, i);
    if e < 15 {
        assert(line[e] != '=');
    } else if e > 15 {
        assert(line[15] != '=');
    }
    assert(e == 15);
    let key = line.take(15);
    assert(key.last() == ' ');
    assert(key.drop_last() =~= "model_provider"@);
    assert(trim_end(key.drop_last()) == key.drop_last());
    assert(trim_end(key) == "model_provider"@);
    assert(trim_start(key) == key);
    assert(trim(key) == "model_provider"@);
    let value = line.skip(16);
    let quoted = seq![q] + id + seq![q];
    assert(value =~= seq![' '] + quoted);
    assert(value.drop_first() =~= quoted);
    assert(trim_start(quoted) == quoted);
    assert(trim_start(value) == quoted);
    assert(quoted.last() == q);
    assert(trim_end(quoted) == quoted);
    assert(trim(value) == quoted);
    lemma_unquote(id, q);
    assert(assigned_provider(line) == Some(id));
}

proof fn lemma_match_ranks(rows: Seq<ThreadRow>, n: Seq<char>, k: nat)
    requires
        k <= rows.len(),
        k <= u64::MAX,
    ensures
        match_ranks(rows, n, k).len() <= k,
        forall|i: int|
            0 <= i < match_ranks(rows, n, k).len() ==> 1 <= #[trigger] match_ranks(rows, n, k)[i] <= k
                && row_key(rows[match_ranks(rows, n, k)[i] - 1].cwd@) == n,
        forall|i: int, j: int|
            0 <= i < j < match_ranks(rows, n, k).len() ==> #[trigger] match_ranks(rows, n, k)[i]
                < #[trigger] match_ranks(rows, n, k)[j],
    decreases k,
{
    if k > 0 {
        lemma_match_ranks(rows, n, (k - 1) as nat);
        let prev = match_ranks(rows, n, (k - 1) as nat);
        let cur = match_ranks(rows, n, k);
        if row_key(rows[k - 1].cwd@) == n {
            assert(cur == prev.push(k as u64));
            assert forall|i: int| 0 <= i < cur.len() implies 1 <= #[trigger] cur[i] <= k && row_key(
                rows[cur[i] - 1].cwd@,
            ) == n by {
                if i < prev.len() {
                    assert(cur[i] == prev[i]);
                }
            }
            assert forall|i: int, j: int| 0 <= i < j < cur.len() implies #[trigger] cur[i]
                < #[trigger] cur[j] by {
                assert(cur[i] == prev[i]);
                if j < prev.len() {
                    assert(cur[j] == prev[j]);
                }
            }
        }
    }
}

proof fn lemma_exact_at_most(rows: Seq<ThreadRow>, n: Seq<char>, exact: Seq<char>, k: nat)
    requires
        k <= rows.len(),
    ensures
        exact_matches(rows, n, exact, k) <= match_ranks(rows, n, k).len(),
    decreases k,
{
    if k > 0 {
        lemma_exact_at_most(rows, n, exact, (k - 1) as nat);
    }
}

proof fn lemma_count_at_most(ranks: Seq<u64>, limit: u64)
    ensures
        count_at_most(ranks, limit) <= ranks.len(),
        (forall|i: int| 0 <= i < ranks.len() ==> #[trigger] ranks[i] <= limit) ==> count_at_most(
            ranks,
            limit,
        ) == ranks.len(),
    decreases ranks.len(),
{
    if ranks.len() > 0 {
        lemma_count_at_most(ranks.drop_last(), limit);
        if forall|i: int| 0 <= i < ranks.len() ==> #[trigger] ranks[i] <= limit {
            assert forall|i: int| 0 <= i < ranks.drop_last().len() implies #[trigger] ranks.drop_last()[i]
                <= limit by {
                assert(ranks.drop_last()[i] == ranks[i]);
            }
            assert(ranks[ranks.len() - 1] <= limit);
        }
    }
}

/// A root's threads are among all threads: its exact matches and its
/// threads on the first page of fifty are among its threads, all of its
/// threads are on the first page when there are at most fifty threads, and
/// its top rank is the rank of one of its threads, no greater than the
/// rank of any other.
pub proof fn law_visibility_counts_are_consistent(v: ProjectVisibility, root: Seq<char>, rows: Seq<ThreadRow>)
    requires
        visibility_of(v, root, rows),
        rows.len() <= u64::MAX,
    ensures
        v.interactive_threads <= rows.len(),
        v.exact_cwd_matches <= v.interactive_threads,
        v.first_page_threads <= v.interactive_threads,
        rows.len() <= 50 ==> v.first_page_threads == v.interactive_threads,
        v.top_rank is Some <==> v.interactive_threads > 0,
        v.top_rank matches Some(r) ==> 1 <= r <= rows.len() && row_key(rows[r - 1].cwd@) == normalize_spec(
            desktop_path(root),
        )->Some_0 && forall|j: int|
            0 <= j < r - 1 ==> row_key(#[trigger] rows[j].cwd@) != normalize_spec(desktop_path(root))->Some_0,
{
    let n = normalize_spec(desktop_path(root))->Some_0;
    let ranks = match_ranks(rows, n, rows.len());
    lemma_match_ranks(rows, n, rows.len());
    lemma_exact_at_most(rows, n, desktop_path(root), rows.len());
    lemma_count_at_most(ranks, 50);
    if rows.len() <= 50 {
        assert forall|i: int| 0 <= i < ranks.len() implies #[trigger] ranks[i] <= 50 by {
        }
    }
    if ranks.len() > 0 {
        let r = ranks[0];
        assert forall|j: int| 0 <= j < r - 1 implies row_key(#[trigger] rows[j].cwd@) != n by {
            if row_key(rows[j].cwd@) == n {
                lemma_rank_listed(rows, n, rows.len(), j);
            }
        }
    }
}

/// A thread among the first `k` of the root has its rank listed.
proof fn lemma_rank_listed(rows: Seq<ThreadRow>, n: Seq<char>, k: nat, j: int)
    requires
        k <= rows.len(),
        k <= u64::MAX,
        0 <= j < k,
        row_key(rows[j].cwd@) == n,
    ensures
        exists|i: int|
            0 <= i < match_ranks(rows, n, k).len() && #[trigger] match_ranks(rows, n, k)[i] == j + 1,
        match_ranks(rows, n, k).len() > 0 && match_ranks(rows, n, k)[0] <= j + 1,
    decreases k,
{
    lemma_match_ranks(rows, n, k);
    if j < k - 1 {
        lemma_rank_listed(rows, n, (k - 1) as nat, j);
        let prev = match_ranks(rows, n, (k - 1) as nat);
        let i = choose|i: int| 0 <= i < prev.len() && #[trigger] prev[i] == j + 1;
        assert(match_ranks(rows, n, k)[i] == j + 1);
    } else {
        let ks = match_ranks(rows, n, k);
        assert(ks[ks.len() - 1] == k);
        if ks.len() > 1 {
            assert(ks[0] < ks[ks.len() - 1]);
        }
    }
}

} // verus!
