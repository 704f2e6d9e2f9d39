//! The companion's state: settings, connection status, and the activity log
//! (the last 50 entries).

use vstd::prelude::*;
use crate::sorting::views;

verus! {

/// What the user configured.
#[derive(Debug)]
pub struct Settings {
    pub api_token: Option<String>,
    pub wow_path: Option<String>,
    pub wow_account: Option<String>,
    pub auto_start: bool,
    pub auto_sync: bool,
}

impl Default for Settings {
    /// No token, path or account; auto-start off, auto-sync on.
    fn default() -> (r: Self)
        ensures
            r.api_token is None,
            r.wow_path is None,
            r.wow_account is None,
            !r.auto_start,
            r.auto_sync,
    {
        Settings { api_token: None, wow_path: None, wow_account: None, auto_start: false, auto_sync: true }
    }
}

/// How an entry of the log is marked.
#[derive(Debug, Clone, Copy, PartialEq, Eq, Structural)]
pub enum LogLevel {
    Info,
    Success,
    Warning,
    Error,
}

/// One entry of the activity log.
#[derive(Debug)]
pub struct LogEntry {
    pub timestamp: String,
    pub level: LogLevel,
    pub message: String,
}

/// The content of a [`LogEntry`].
pub struct LogLine {
    pub timestamp: Seq<char>,
    pub level: LogLevel,
    pub message: Seq<char>,
}

impl View for LogEntry {
    type V = LogLine;

    open spec fn view(&self) -> LogLine {
        LogLine { timestamp: self.timestamp@, level: self.level, message: self.message@ }
    }
}

/// Whether the website accepted the token, and what it said of the account.
#[derive(Debug)]
pub struct ConnectionStatus {
    pub connected: bool,
    pub user_name: Option<String>,
    pub character_count: Option<u32>,
    pub last_sync_time: Option<String>,
    pub last_sync_result: Option<String>,
}

impl Default for ConnectionStatus {
    /// Not connected, nothing known.
    fn default() -> (r: Self)
        ensures
            !r.connected,
            r.user_name is None,
            r.character_count is None,
            r.last_sync_time is None,
            r.last_sync_result is None,
    {
        ConnectionStatus {
            connected: false,
            user_name: None,
            character_count: None,
            last_sync_time: None,
            last_sync_result: None,
        }
    }
}

/// Everything the companion keeps while it runs.
pub struct AppState {
    pub settings: Settings,
    pub connection: ConnectionStatus,
    pub log_entries: Vec<LogEntry>,
    pub watcher_running: bool,
}

impl Default for AppState {
    /// Default settings, not connected, an empty log, no watcher.
    fn default() -> (r: Self)
        ensures
            r.settings.api_token is None,
            r.settings.wow_path is None,
            r.settings.wow_account is None,
            !r.settings.auto_start,
            r.settings.auto_sync,
            !r.connection.connected,
            r.connection.user_name is None,
            r.connection.character_count is None,
            r.connection.last_sync_time is None,
            r.connection.last_sync_result is None,
            r.log_entries@.len() == 0,
            !r.watcher_running,
    {
        AppState {
            settings: Settings::default(),
            connection: ConnectionStatus::default(),
            log_entries: Vec::new(),
            watcher_running: false,
        }
    }
}

/// The most entries the log keeps.
pub const LOG_CAPACITY: usize = 50;

/// The log after appending `e`: the oldest entry goes when it would hold more
/// than 50.
pub open spec fn log_after(log: Seq<LogLine>, e: LogLine) -> Seq<LogLine> {
    let p = log.push(e);
    if p.len() > LOG_CAPACITY {
        p.drop_first()
    } else {
        p
    }
}

/// Trusted: calls `chrono::Local::now().format("%H:%M:%S").to_string()`, the
/// local time of day. Claimed (chrono's documentation: each of `%H`, `%M`,
/// `%S` is zero-padded to 2 digits): the text has 8 characters with `:` at
/// the third and the sixth. Which time it is is not claimed.
#[verifier::external_body]
fn clock_text() -> (r: String)
    ensures
        r@.len() == 8,
        r@[2] == ':',
        r@[5] == ':',
{
    chrono::Local::now().format("%H:%M:%S").to_string()
}

impl AppState {
    /// Appends an entry stamped `timestamp` to the log, dropping the oldest
    /// when the log would hold more than 50.
    pub fn add_log_at(&mut self, timestamp: String, level: LogLevel, message: &str)
        ensures
            views(final(self).log_entries@) == log_after(
                views(old(self).log_entries@),
                LogLine { timestamp: timestamp@, level, message: message@ },
            ),
            old(self).log_entries@.len() <= LOG_CAPACITY ==> final(self).log_entries@.len()
                <= LOG_CAPACITY,
            final(self).settings == old(self).settings,
            final(self).connection == old(self).connection,
            final(self).watcher_running == old(self).watcher_running,
    {
        let ghost before = views(self.log_entries@);
        let entry = LogEntry { timestamp, level, message: message.to_owned() };
        let ghost line = entry@;
        self.log_entries.push(entry);
        assert(views(self.log_entries@) =~= before.push(line));
        if self.log_entries.len() > LOG_CAPACITY {
            let ghost full = self.log_entries@;
            self.log_entries.remove(0);
            assert(views(self.log_entries@) =~= before.push(line).drop_first()) by {
                assert(self.log_entries@ =~= full.drop_first());
            }
        }
    }

    /// Appends an entry stamped with the local time of day to the log,
    /// dropping the oldest when the log would hold more than 50.
    pub fn add_log(&mut self, level: LogLevel, message: &str)
        ensures
            exists|t: Seq<char>|
                t.len() == 8 && t[2] == ':' && t[5] == ':' && views(final(self).log_entries@)
                    == #[trigger] log_after(
                    views(old(self).log_entries@),
                    LogLine { timestamp: t, level, message: message@ },
                ),
            old(self).log_entries@.len() <= LOG_CAPACITY ==> final(self).log_entries@.len()
                <= LOG_CAPACITY,
            final(self).settings == old(self).settings,
            final(self).connection == old(self).connection,
            final(self).watcher_running == old(self).watcher_running,
    {
        let now = clock_text();
        self.add_log_at(now, level, message);
    }
}

} // verus!
