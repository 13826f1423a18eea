//! The statements run against the Codex state database and what is made of
//! their results: quoting, the statements' text, error messages, and the
//! counts of rows repaired.
use vstd::prelude::*;
use crate::collection::{IdSet, ThreadCwdMap};
use crate::counts::{stat_views, ProviderStat};
use crate::text::{
    chars_of, contains_chars, contains_text, decimal, is_blank, join, join_strings,
    lowercase, push_char, push_decimal, to_lowercase_text, trim, views,
};

verus! {

// ------------------------------------------------------------------
// Identifiers and statements
// ------------------------------------------------------------------

/// Every `"` doubled.
pub open spec fn double_quotes(s: Seq<char>) -> Seq<char>
    decreases s.len(),
{
    if s.len() == 0 {
        Seq::empty()
    } else {
        double_quotes(s.drop_last()) + if s.last() == '"' {
            seq!['"', '"']
        } else {
            seq![s.last()]
        }
    }
}

/// A quoted SQL identifier.
pub open spec fn quoted(name: Seq<char>) -> Seq<char> {
    seq!['"'] + double_quotes(name) + seq!['"']
}

/// Quotes an SQL identifier: in double quotes, with inner quotes doubled.
pub fn quote_ident(name: &str) -> (r: String)
    ensures
        r@ == quoted(name@),
{
    let chars = chars_of(name);
    let mut out = String::new();
    push_char(&mut out, '"');
    let mut i: usize = 0;
    while i < chars.len()
        invariant
            i <= chars@.len(),
            chars@ == name@,
            out@ == seq!['"'] + double_quotes(chars@.take(i as int)),
        decreases chars@.len() - i,
    {
        assert(chars@.take(i + 1).drop_last() =~= chars@.take(i as int));
        let c = chars[i];
        push_char(&mut out, c);
        if c == '"' {
            push_char(&mut out, '"');
        }
        i = i + 1;
        assert(out@ =~= seq!['"'] + double_quotes(chars@.take(i as int)));
    }
    push_char(&mut out, '"');
    assert(chars@.take(chars@.len() as int) =~= chars@);
    assert(out@ =~= quoted(name@));
    out
}

/// A column set (the names `PRAGMA table_info` lists) holds `name`.
pub open spec fn has_column(columns: Seq<String>, name: Seq<char>) -> bool {
    views(columns).contains(name)
}

pub fn has_column_exec(columns: &Vec<String>, name: &str) -> (r: bool)
    ensures
        r == has_column(columns@, name@),
{
    let ns = String::from_str(name);
    let mut i: usize = 0;
    while i < columns.len()
        invariant
            i <= columns@.len(),
            ns@ == name@,
            forall|k: int| 0 <= k < i ==> columns@[k]@ != name@,
        decreases columns@.len() - i,
    {
        if columns[i] == ns {
            assert(views(columns@)[i as int] == name@);
            return true;
        }
        i = i + 1;
    }
    assert forall|k: int| 0 <= k < views(columns@).len() implies views(columns@)[k] != name@ by {
        assert(views(columns@)[k] == columns@[k]@);
    }
    false
}

/// The parts of the sort time of a thread, by the columns the table has.
pub open spec fn time_parts(columns: Seq<String>) -> Seq<Seq<char>> {
    (if has_column(columns, "updated_at_ms"@) {
        seq!["updated_at_ms"@]
    } else {
        Seq::empty()
    }) + (if has_column(columns, "updated_at"@) {
        seq!["updated_at * 1000"@]
    } else {
        Seq::empty()
    }) + (if has_column(columns, "created_at_ms"@) {
        seq!["created_at_ms"@]
    } else {
        Seq::empty()
    }) + (if has_column(columns, "created_at"@) {
        seq!["created_at * 1000"@]
    } else {
        Seq::empty()
    }) + seq!["0"@]
}

fn push_if(out: &mut Vec<String>, cond: bool, part: &str)
    ensures
        views(final(out)@) == views(old(out)@) + if cond {
            seq![part@]
        } else {
            Seq::empty()
        },
{
    if cond {
        let ghost before = views(out@);
        out.push(String::from_str(part));
        assert(views(out@) =~= before + seq![part@]);
    } else {
        assert(views(out@) =~= views(old(out)@) + Seq::<Seq<char>>::empty());
    }
}

/// The sort time of a thread in milliseconds: the first of its update and
/// creation times that is set, else 0.
pub fn build_time_expression(columns: &Vec<String>) -> (r: String)
    ensures
        r@ == "COALESCE("@ + join(time_parts(columns@), ", "@) + ")"@,
{
    let mut parts: Vec<String> = Vec::new();
    push_if(&mut parts, has_column_exec(columns, "updated_at_ms"), "updated_at_ms");
    push_if(&mut parts, has_column_exec(columns, "updated_at"), "updated_at * 1000");
    push_if(&mut parts, has_column_exec(columns, "created_at_ms"), "created_at_ms");
    push_if(&mut parts, has_column_exec(columns, "created_at"), "created_at * 1000");
    push_if(&mut parts, true, "0");
    assert(views(parts@) =~= time_parts(columns@));
    let mut out = String::from_str("COALESCE(");
    let joined = join_strings(&parts, ", ");
    out.append(joined.as_str());
    out.append(")");
    out
}

/// The latest update time of a working directory, by the columns the
/// table has.
pub open spec fn updated_expr(columns: Seq<String>) -> Seq<char> {
    if has_column(columns, "updated_at_ms"@) && has_column(columns, "updated_at"@) {
        "COALESCE(MAX(updated_at_ms), MAX(updated_at) * 1000, 0)"@
    } else if has_column(columns, "updated_at_ms"@) {
        "COALESCE(MAX(updated_at_ms), 0)"@
    } else if has_column(columns, "updated_at"@) {
        "COALESCE(MAX(updated_at) * 1000, 0)"@
    } else {
        "0"@
    }
}

/// The statement that counts the threads of each working directory.
pub fn cwd_stats_sql(columns: &Vec<String>) -> (r: String)
    ensures
        r@ == "SELECT cwd, COUNT(*) AS count, "@ + updated_expr(columns@)
            + " AS updated_at_ms FROM threads WHERE cwd IS NOT NULL AND cwd <> '' GROUP BY cwd ORDER BY count DESC, updated_at_ms DESC, cwd"@,
{
    let ms = has_column_exec(columns, "updated_at_ms");
    let s = has_column_exec(columns, "updated_at");
    let expr = if ms && s {
        "COALESCE(MAX(updated_at_ms), MAX(updated_at) * 1000, 0)"
    } else if ms {
        "COALESCE(MAX(updated_at_ms), 0)"
    } else if s {
        "COALESCE(MAX(updated_at) * 1000, 0)"
    } else {
        "0"
    };
    let mut out = String::from_str("SELECT cwd, COUNT(*) AS count, ");
    out.append(expr);
    out.append(
        " AS updated_at_ms FROM threads WHERE cwd IS NOT NULL AND cwd <> '' GROUP BY cwd ORDER BY count DESC, updated_at_ms DESC, cwd",
    );
    out
}

/// The filters and provider column of the visibility statement.
pub open spec fn visibility_sql_spec(columns: Seq<String>) -> Seq<char> {
    let provider_expr = if has_column(columns, "model_provider"@) {
        "model_provider"@
    } else {
        "'' AS model_provider"@
    };
    let archived_filter = if has_column(columns, "archived"@) {
        "AND archived = 0"@
    } else {
        ""@
    };
    let first_user_filter = if has_column(columns, "first_user_message"@) {
        "AND first_user_message <> ''"@
    } else {
        ""@
    };
    let source_filter = if has_column(columns, "source"@) {
        "AND source IN ('cli', 'vscode')"@
    } else {
        ""@
    };
    "SELECT id, cwd, "@ + provider_expr + ", "@ + "COALESCE("@ + join(
        time_parts(columns),
        ", "@,
    ) + ")"@ + " AS sort_ts FROM threads WHERE cwd IS NOT NULL AND cwd <> '' "@ + archived_filter
        + " "@ + first_user_filter + " "@ + source_filter + " ORDER BY sort_ts DESC, id DESC"@
}

/// The statement that lists the interactive threads from the most recent.
pub fn project_visibility_sql(columns: &Vec<String>) -> (r: String)
    ensures
        r@ == visibility_sql_spec(columns@),
{
    let provider_expr = if has_column_exec(columns, "model_provider") {
        "model_provider"
    } else {
        "'' AS model_provider"
    };
    let archived_filter = if has_column_exec(columns, "archived") {
        "AND archived = 0"
    } else {
        ""
    };
    let first_user_filter = if has_column_exec(columns, "first_user_message") {
        "AND first_user_message <> ''"
    } else {
        ""
    };
    let source_filter = if has_column_exec(columns, "source") {
        "AND source IN ('cli', 'vscode')"
    } else {
        ""
    };
    let time_expr = build_time_expression(columns);
    let mut out = String::from_str("SELECT id, cwd, ");
    out.append(provider_expr);
    out.append(", ");
    out.append(time_expr.as_str());
    out.append(" AS sort_ts FROM threads WHERE cwd IS NOT NULL AND cwd <> '' ");
    out.append(archived_filter);
    out.append(" ");
    out.append(first_user_filter);
    out.append(" ");
    out.append(source_filter);
    out.append(" ORDER BY sort_ts DESC, id DESC");
    out
}

/// The statement that counts the rows of each value of a provider column.
pub fn provider_stats_sql(table: &str, col: &str) -> (r: String)
    ensures
        r@ == "SELECT CAST("@ + quoted(col@) + " AS TEXT), COUNT(*) FROM "@ + quoted(table@)
            + " WHERE "@ + quoted(col@) + " IS NOT NULL GROUP BY "@ + quoted(col@),
{
    let c = quote_ident(col);
    let t = quote_ident(table);
    let mut out = String::from_str("SELECT CAST(");
    out.append(c.as_str());
    out.append(" AS TEXT), COUNT(*) FROM ");
    out.append(t.as_str());
    out.append(" WHERE ");
    out.append(c.as_str());
    out.append(" IS NOT NULL GROUP BY ");
    out.append(c.as_str());
    out
}

/// The statement that counts the rows of a provider column not yet set to
/// the target (`?1`).
pub fn provider_count_sql(table: &str, col: &str) -> (r: String)
    ensures
        r@ == "SELECT COUNT(*) FROM "@ + quoted(table@) + " WHERE "@ + quoted(col@)
            + " IS NOT NULL AND CAST("@ + quoted(col@) + " AS TEXT) != ?1"@,
{
    let c = quote_ident(col);
    let t = quote_ident(table);
    let mut out = String::from_str("SELECT COUNT(*) FROM ");
    out.append(t.as_str());
    out.append(" WHERE ");
    out.append(c.as_str());
    out.append(" IS NOT NULL AND CAST(");
    out.append(c.as_str());
    out.append(" AS TEXT) != ?1");
    out
}

/// The statement that sets a provider column to the target (`?1`).
pub fn provider_update_sql(table: &str, col: &str) -> (r: String)
    ensures
        r@ == "UPDATE "@ + quoted(table@) + " SET "@ + quoted(col@) + " = ?1 WHERE "@ + quoted(
            col@,
        ) + " IS NOT NULL AND CAST("@ + quoted(col@) + " AS TEXT) != ?1"@,
{
    let c = quote_ident(col);
    let t = quote_ident(table);
    let mut out = String::from_str("UPDATE ");
    out.append(t.as_str());
    out.append(" SET ");
    out.append(c.as_str());
    out.append(" = ?1 WHERE ");
    out.append(c.as_str());
    out.append(" IS NOT NULL AND CAST(");
    out.append(c.as_str());
    out.append(" AS TEXT) != ?1");
    out
}

/// The statement that lists the columns of a table.
pub fn table_info_sql(table: &str) -> (r: String)
    ensures
        r@ == "PRAGMA table_info("@ + quoted(table@) + ")"@,
{
    let mut out = String::from_str("PRAGMA table_info(");
    let t = quote_ident(table);
    out.append(t.as_str());
    out.append(")");
    out
}

/// A provider column: named `provider` or `model_provider`.
pub open spec fn is_provider_column(name: Seq<char>) -> bool {
    name == "provider"@ || name == "model_provider"@
}

/// The provider columns among a table's columns, in their order.
pub open spec fn provider_columns_spec(columns: Seq<Seq<char>>) -> Seq<Seq<char>>
    decreases columns.len(),
{
    if columns.len() == 0 {
        Seq::empty()
    } else {
        let prev = provider_columns_spec(columns.drop_last());
        if is_provider_column(columns.last()) {
            prev.push(columns.last())
        } else {
            prev
        }
    }
}

pub fn provider_columns(columns: &Vec<String>) -> (r: Vec<String>)
    ensures
        views(r@) == provider_columns_spec(views(columns@)),
{
    let p1 = String::from_str("provider");
    let p2 = String::from_str("model_provider");
    let ghost cs = views(columns@);
    let mut out: Vec<String> = Vec::new();
    let mut i: usize = 0;
    while i < columns.len()
        invariant
            i <= columns@.len(),
            cs == views(columns@),
            p1@ == "provider"@,
            p2@ == "model_provider"@,
            views(out@) == provider_columns_spec(cs.take(i as int)),
        decreases columns@.len() - i,
    {
        assert(cs.take(i + 1).drop_last() =~= cs.take(i as int));
        assert(cs.take(i + 1).last() == columns@[i as int]@);
        if columns[i] == p1 || columns[i] == p2 {
            let ghost before = views(out@);
            out.push(columns[i].clone());
            assert(views(out@) =~= before.push(columns@[i as int]@));
        }
        i = i + 1;
    }
    assert(cs.take(columns@.len() as int) =~= cs);
    out
}

/// A provider column that the generic update handles: every one but
/// `threads.model_provider`, which is updated on its own.
pub fn is_generic_provider_column(table: &str, col: &str) -> (r: bool)
    ensures
        r == !(table@ == "threads"@ && col@ == "model_provider"@),
{
    !(String::from_str(table) == String::from_str("threads") && String::from_str(col)
        == String::from_str("model_provider"))
}

// ------------------------------------------------------------------
// Errors
// ------------------------------------------------------------------

/// The message for a database error: a hint when the database is busy or
/// damaged, else the error's own text.
pub open spec fn sqlite_err_spec(message: Seq<char>, action: Seq<char>) -> Seq<char> {
    let lower = lowercase(message);
    if contains_text(lower, "database is locked"@) || contains_text(lower, "sqlite_busy"@)
        || contains_text(lower, "busy"@) || contains_text(lower, "locked"@) {
        "无法"@ + action
            + "，因为 state_5.sqlite 正在被占用。请先关闭 Codex / Codex App / app-server 后重试。原始错误："@
            + message
    } else if contains_text(lower, "malformed"@) || contains_text(lower, "not a database"@)
        || contains_text(lower, "corrupt"@) {
        "无法"@ + action + "，因为 state_5.sqlite 损坏或不可读取。请先备份/修复数据库后重试。原始错误："@
            + message
    } else {
        message
    }
}

fn mentions(lower: &Vec<char>, word: &str) -> (r: bool)
    ensures
        r == contains_text(lower@, word@),
{
    let w = chars_of(word);
    contains_chars(lower.as_slice(), w.as_slice())
}

/// The message for a database error, given the error's text.
pub fn sqlite_err(message: &str, action: &str) -> (r: String)
    ensures
        r@ == sqlite_err_spec(message@, action@),
{
    let lower_text = to_lowercase_text(message);
    let lower = chars_of(lower_text.as_str());
    if mentions(&lower, "database is locked") || mentions(&lower, "sqlite_busy") || mentions(
        &lower,
        "busy",
    ) || mentions(&lower, "locked") {
        let mut out = String::from_str("无法");
        out.append(action);
        out.append(
            "，因为 state_5.sqlite 正在被占用。请先关闭 Codex / Codex App / app-server 后重试。原始错误：",
        );
        out.append(message);
        return out;
    }
    if mentions(&lower, "malformed") || mentions(&lower, "not a database") || mentions(
        &lower,
        "corrupt",
    ) {
        let mut out = String::from_str("无法");
        out.append(action);
        out.append("，因为 state_5.sqlite 损坏或不可读取。请先备份/修复数据库后重试。原始错误：");
        out.append(message);
        return out;
    }
    String::from_str(message)
}

// ------------------------------------------------------------------
// Results
// ------------------------------------------------------------------

/// Rows changed by a synchronisation of the database.
pub struct SqliteSyncStats {
    pub provider_rows: u64,
    pub generic_provider_rows: u64,
    pub user_event_rows: u64,
    pub cwd_rows: u64,
}

impl SqliteSyncStats {
    pub fn new() -> (r: SqliteSyncStats)
        ensures
            r.provider_rows == 0 && r.generic_provider_rows == 0 && r.user_event_rows == 0
                && r.cwd_rows == 0,
    {
        SqliteSyncStats { provider_rows: 0, generic_provider_rows: 0, user_event_rows: 0, cwd_rows: 0 }
    }

    /// All rows changed.
    pub fn total(&self) -> (r: u64)
        requires
            self.provider_rows + self.generic_provider_rows + self.user_event_rows + self.cwd_rows
                <= u64::MAX,
        ensures
            r == self.provider_rows + self.generic_provider_rows + self.user_event_rows
                + self.cwd_rows,
    {
        self.provider_rows + self.generic_provider_rows + self.user_event_rows + self.cwd_rows
    }
}

/// Rows of the database that a synchronisation would repair.
pub struct SqliteRepairStats {
    pub user_event_rows_needing_repair: u64,
    pub cwd_rows_needing_repair: u64,
}

/// The number of `Some(v)` with `v != 1`.
pub open spec fn flags_needing_repair(values: Seq<Option<i64>>) -> nat
    decreases values.len(),
{
    if values.len() == 0 {
        0
    } else {
        flags_needing_repair(values.drop_last()) + match values.last() {
            Some(v) => if v != 1 {
                1nat
            } else {
                0nat
            },
            None => 0nat,
        }
    }
}

/// The number of pairs whose stored value exists and differs from the
/// expected one.
pub open spec fn values_needing_repair(pairs: Seq<(Seq<char>, Option<Seq<char>>)>) -> nat
    decreases pairs.len(),
{
    if pairs.len() == 0 {
        0
    } else {
        values_needing_repair(pairs.drop_last()) + match pairs.last().1 {
            Some(v) => if v != pairs.last().0 {
                1nat
            } else {
                0nat
            },
            None => 0nat,
        }
    }
}

pub open spec fn pair_views(p: Seq<(String, Option<String>)>) -> Seq<(Seq<char>, Option<Seq<char>>)> {
    p.map_values(
        |x: (String, Option<String>)|
            (
                x.0@,
                match x.1 {
                    Some(s) => Some(s@),
                    None => None,
                },
            ),
    )
}

/// What the database needs repaired, given the `has_user_event` value of
/// each thread with user activity (`None` when absent or unreadable) and,
/// for each thread with a working directory, that directory and the stored
/// one.
pub fn sqlite_repair_stats(
    user_event_values: &Vec<Option<i64>>,
    cwd_values: &Vec<(String, Option<String>)>,
) -> (r: SqliteRepairStats)
    ensures
        r.user_event_rows_needing_repair == flags_needing_repair(user_event_values@),
        r.cwd_rows_needing_repair == values_needing_repair(pair_views(cwd_values@)),
{
    let mut flags: u64 = 0;
    let mut i: usize = 0;
    while i < user_event_values.len()
        invariant
            i <= user_event_values@.len(),
            flags == flags_needing_repair(user_event_values@.take(i as int)),
            flags <= i,
        decreases user_event_values@.len() - i,
    {
        assert(user_event_values@.take(i + 1).drop_last() =~= user_event_values@.take(i as int));
        match user_event_values[i] {
            Some(v) => {
                if v != 1 {
                    flags = flags + 1;
                }
            },
            None => {},
        }
        i = i + 1;
    }
    assert(user_event_values@.take(user_event_values@.len() as int) =~= user_event_values@);
    let ghost pv = pair_views(cwd_values@);
    let mut cwds: u64 = 0;
    let mut j: usize = 0;
    while j < cwd_values.len()
        invariant
            j <= cwd_values@.len(),
            pv == pair_views(cwd_values@),
            cwds == values_needing_repair(pv.take(j as int)),
            cwds <= j,
        decreases cwd_values@.len() - j,
    {
        assert(pv.take(j + 1).drop_last() =~= pv.take(j as int));
        match &cwd_values[j].1 {
            Some(v) => {
                if *v != cwd_values[j].0 {
                    cwds = cwds + 1;
                }
            },
            None => {},
        }
        j = j + 1;
    }
    assert(pv.take(cwd_values@.len() as int) =~= pv);
    SqliteRepairStats { user_event_rows_needing_repair: flags, cwd_rows_needing_repair: cwds }
}

/// The working directories to write back: the pairs whose id and directory
/// are both non-blank.
pub open spec fn cwd_repairs_spec(e: Seq<(Seq<char>, Seq<char>)>) -> Seq<(Seq<char>, Seq<char>)>
    decreases e.len(),
{
    if e.len() == 0 {
        Seq::empty()
    } else {
        let prev = cwd_repairs_spec(e.drop_last());
        if trim(e.last().0).len() == 0 || trim(e.last().1).len() == 0 {
            prev
        } else {
            prev.push(e.last())
        }
    }
}

pub fn cwd_repairs(map: &ThreadCwdMap) -> (r: Vec<(String, String)>)
    ensures
        r@.map_values(|p: (String, String)| (p.0@, p.1@)) == cwd_repairs_spec(map@),
{
    let mut out: Vec<(String, String)> = Vec::new();
    let mut i: usize = 0;
    while i < map.len()
        invariant
            i <= map@.len(),
            out@.map_values(|p: (String, String)| (p.0@, p.1@)) == cwd_repairs_spec(
                map@.take(i as int),
            ),
        decreases map@.len() - i,
    {
        assert(map@.take(i + 1).drop_last() =~= map@.take(i as int));
        let (id, cwd) = map.entry(i);
        if !is_blank(chars_of(id.as_str()).as_slice()) && !is_blank(
            chars_of(cwd.as_str()).as_slice(),
        ) {
            let ghost before = out@;
            out.push((id, cwd));
            assert(out@.map_values(|p: (String, String)| (p.0@, p.1@)) =~= before.map_values(
                |p: (String, String)| (p.0@, p.1@),
            ).push(map@[i as int]));
        }
        i = i + 1;
    }
    assert(map@.take(map@.len() as int) =~= map@);
    out
}

/// The provider statistics of one provider column: one line per value with
/// its row count (as `u64`), from source `sqlite:<table>:<column>`.
pub open spec fn column_stats_spec(table: Seq<char>, col: Seq<char>, rows: Seq<(Seq<char>, i64)>) -> Seq<
    (Seq<char>, u64, Seq<char>),
> {
    rows.map_values(|r: (Seq<char>, i64)| (r.0, r.1 as u64, "sqlite:"@ + table + ":"@ + col))
}

pub fn scan_sqlite_provider_stats(table: &str, col: &str, rows: &Vec<(String, i64)>) -> (r: Vec<
    ProviderStat,
>)
    ensures
        stat_views(r@) == column_stats_spec(
            table@,
            col@,
            rows@.map_values(|x: (String, i64)| (x.0@, x.1)),
        ),
{
    let mut source = String::from_str("sqlite:");
    source.append(table);
    source.append(":");
    source.append(col);
    let ghost rv = rows@.map_values(|x: (String, i64)| (x.0@, x.1));
    let mut out: Vec<ProviderStat> = Vec::new();
    let mut i: usize = 0;
    while i < rows.len()
        invariant
            i <= rows@.len(),
            rv == rows@.map_values(|x: (String, i64)| (x.0@, x.1)),
            source@ == "sqlite:"@ + table@ + ":"@ + col@,
            stat_views(out@) == column_stats_spec(table@, col@, rv.take(i as int)),
        decreases rows@.len() - i,
    {
        let ghost before = out@;
        out.push(ProviderStat { provider: rows[i].0.clone(), count: rows[i].1 as u64, source: source.clone() });
        assert(stat_views(out@) =~= stat_views(before).push((rows@[i as int].0@, rows@[i as int].1 as u64, source@)));
        i = i + 1;
        assert(stat_views(out@) =~= column_stats_spec(table@, col@, rv.take(i as int)));
    }
    assert(rv.take(rows@.len() as int) =~= rv);
    out
}

/// The ids of the threads with user activity.
pub fn user_event_ids(ids: &IdSet) -> (r: Vec<String>)
    ensures
        views(r@) == ids@,
{
    let mut out: Vec<String> = Vec::new();
    let mut i: usize = 0;
    while i < ids.len()
        invariant
            i <= ids@.len(),
            views(out@) == ids@.take(i as int),
        decreases ids@.len() - i,
    {
        let ghost before = out@;
        let x = ids.item(i);
        out.push(x);
        assert(views(out@) =~= views(before).push(x@));
        i = i + 1;
        assert(views(out@) =~= ids@.take(i as int));
    }
    assert(ids@.take(ids@.len() as int) =~= ids@);
    out
}

} // verus!
