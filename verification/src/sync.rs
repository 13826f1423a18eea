//! The decisions of a synchronisation: which Codex home, which target
//! provider, and which repairs of the `threads` table apply.
use vstd::prelude::*;
use crate::sqlite::{has_column, has_column_exec, SqliteSyncStats};
use crate::text::{chars_of, is_blank, string_of, trim, trim_chars};

verus! {

/// The Codex home given by the user, when it is not blank; otherwise the
/// default one (`~/.codex`) is meant.
pub fn explicit_codex_home(input: Option<String>) -> (r: Option<String>)
    ensures
        match input {
            Some(v) => if trim(v@).len() > 0 {
                r matches Some(x) && x@ == v@
            } else {
                r is None
            },
            None => r is None,
        },
{
    match input {
        Some(v) => {
            if is_blank(chars_of(v.as_str()).as_slice()) {
                None
            } else {
                Some(v)
            }
        },
        None => None,
    }
}

/// The message when `config.toml` is missing.
pub open spec fn missing_config_message() -> Seq<char> {
    "找不到 config.toml，无法确定当前 provider。请先用 Codex/CCS 配置好账号后再同步。"@
}

/// The message when `config.toml` names no root-level provider.
pub open spec fn missing_provider_message() -> Seq<char> {
    "config.toml 中没有读取到根级 model_provider，无法确定同步目标。请先用 CCS 切换到目标账号/provider。"@
}

/// The provider to synchronise to: the root-level `model_provider` of
/// `config.toml`, trimmed.  An error when the file is missing or names no
/// provider.
pub fn sync_target(config_exists: bool, current_provider: &str) -> (r: Result<String, String>)
    ensures
        !config_exists ==> (r matches Err(e) && e@ == missing_config_message()),
        config_exists && trim(current_provider@).len() == 0 ==> (r matches Err(e) && e@
            == missing_provider_message()),
        config_exists && trim(current_provider@).len() > 0 ==> (r matches Ok(t) && t@ == trim(
            current_provider@,
        )),
{
    if !config_exists {
        return Err(
            String::from_str(
                "找不到 config.toml，无法确定当前 provider。请先用 Codex/CCS 配置好账号后再同步。",
            ),
        );
    }
    let t = trim_chars(chars_of(current_provider).as_slice());
    if t.len() == 0 {
        return Err(
            String::from_str(
                "config.toml 中没有读取到根级 model_provider，无法确定同步目标。请先用 CCS 切换到目标账号/provider。",
            ),
        );
    }
    Ok(string_of(t.as_slice()))
}

/// Which repairs of the `threads` table apply, by its columns.
pub struct ThreadsSyncSteps {
    /// Set `model_provider` to the target.
    pub provider: bool,
    /// Set `has_user_event` for threads with user activity.
    pub user_event: bool,
    /// Write back the working directories of the rollouts.
    pub cwd: bool,
}

pub fn threads_sync_steps(columns: &Vec<String>) -> (r: ThreadsSyncSteps)
    ensures
        r.provider == has_column(columns@, "model_provider"@),
        r.user_event == has_column(columns@, "has_user_event"@),
        r.cwd == has_column(columns@, "cwd"@),
{
    ThreadsSyncSteps {
        provider: has_column_exec(columns, "model_provider"),
        user_event: has_column_exec(columns, "has_user_event"),
        cwd: has_column_exec(columns, "cwd"),
    }
}

/// The number of rows an update changes, from a count taken before it:
/// the count when positive, else 0 (no update is run).
pub open spec fn rows_changed(count: i64) -> u64 {
    if count > 0 {
        count as u64
    } else {
        0
    }
}

impl SqliteSyncStats {
    /// Notes the rows of `threads` whose provider is set.
    pub fn record_provider_rows(&mut self, count: i64)
        ensures
            final(self).provider_rows == if count > 0 {
                count as u64
            } else {
                old(self).provider_rows
            },
            final(self).generic_provider_rows == old(self).generic_provider_rows,
            final(self).user_event_rows == old(self).user_event_rows,
            final(self).cwd_rows == old(self).cwd_rows,
    {
        if count > 0 {
            self.provider_rows = count as u64;
        }
    }

    /// Adds the rows of another provider column that are set.
    pub fn add_generic_rows(&mut self, count: i64)
        requires
            old(self).generic_provider_rows + rows_changed(count) <= u64::MAX,
        ensures
            final(self).generic_provider_rows == old(self).generic_provider_rows + rows_changed(
                count,
            ),
            final(self).provider_rows == old(self).provider_rows,
            final(self).user_event_rows == old(self).user_event_rows,
            final(self).cwd_rows == old(self).cwd_rows,
    {
        if count > 0 {
            self.generic_provider_rows = self.generic_provider_rows + count as u64;
        }
    }
}

/// The fixed statements run against the state database.
pub enum StateStatement {
    /// Whether a table (`?1`) exists.
    TableExists,
    /// The names of the tables, SQLite's own left out.
    ListTables,
    /// The threads whose provider is not yet the target (`?1`).
    CountThreadProviders,
    /// Sets the provider of those threads to the target (`?1`).
    UpdateThreadProviders,
    /// Marks thread `?1` as having user activity.
    SetUserEvent,
    /// Sets the working directory of thread `?2` to `?1`.
    SetThreadCwd,
    /// The `has_user_event` value of thread `?1`.
    ReadUserEvent,
    /// The working directory of thread `?1`.
    ReadThreadCwd,
}

pub open spec fn statement_spec(which: StateStatement) -> Seq<char> {
    match which {
        StateStatement::TableExists => "SELECT COUNT(*) FROM sqlite_master WHERE type='table' AND name = ?1"@,
        StateStatement::ListTables => "SELECT name FROM sqlite_master WHERE type='table' AND name NOT LIKE 'sqlite_%'"@,
        StateStatement::CountThreadProviders => "SELECT COUNT(*) FROM threads WHERE COALESCE(model_provider, '') <> ?1"@,
        StateStatement::UpdateThreadProviders => "UPDATE threads SET model_provider = ?1 WHERE COALESCE(model_provider, '') <> ?1"@,
        StateStatement::SetUserEvent => "UPDATE threads SET has_user_event = 1 WHERE id = ?1 AND COALESCE(has_user_event, 0) <> 1"@,
        StateStatement::SetThreadCwd => "UPDATE threads SET cwd = ?1 WHERE id = ?2 AND COALESCE(cwd, '') <> ?1"@,
        StateStatement::ReadUserEvent => "SELECT has_user_event FROM threads WHERE id = ?1"@,
        StateStatement::ReadThreadCwd => "SELECT cwd FROM threads WHERE id = ?1"@,
    }
}

/// The text of a fixed statement.
pub fn statement(which: StateStatement) -> (r: String)
    ensures
        r@ == statement_spec(which),
{
    match which {
        StateStatement::TableExists => String::from_str("SELECT COUNT(*) FROM sqlite_master WHERE type='table' AND name = ?1"),
        StateStatement::ListTables => String::from_str("SELECT name FROM sqlite_master WHERE type='table' AND name NOT LIKE 'sqlite_%'"),
        StateStatement::CountThreadProviders => String::from_str("SELECT COUNT(*) FROM threads WHERE COALESCE(model_provider, '') <> ?1"),
        StateStatement::UpdateThreadProviders => String::from_str("UPDATE threads SET model_provider = ?1 WHERE COALESCE(model_provider, '') <> ?1"),
        StateStatement::SetUserEvent => String::from_str("UPDATE threads SET has_user_event = 1 WHERE id = ?1 AND COALESCE(has_user_event, 0) <> 1"),
        StateStatement::SetThreadCwd => String::from_str("UPDATE threads SET cwd = ?1 WHERE id = ?2 AND COALESCE(cwd, '') <> ?1"),
        StateStatement::ReadUserEvent => String::from_str("SELECT has_user_event FROM threads WHERE id = ?1"),
        StateStatement::ReadThreadCwd => String::from_str("SELECT cwd FROM threads WHERE id = ?1"),
    }
}

} // verus!
