//! What the companion's commands decide: whether a token looks right, what a
//! status reply means for the connection, what a sync's outcome does to the
//! state and the log, and which account and files to use.

use vstd::prelude::*;
use vstd::utf8::encode_utf8;
use crate::app_state::{AppState, Settings, ConnectionStatus, LogLevel, LogLine, log_after};
use crate::api::{ApiError, api_error_text, StatusResponse, SyncResponse};
use crate::wow::{WowAccount, default_account};
use crate::value::{Value, field};
use crate::lua_parser::{
    parse_saved_variable_checked, read_saved_variable, chartracker_db_name, Scan, fault_message,
    parse_error_text,
};
use crate::watcher::WatcherEvent;
use crate::sorting::views;
use crate::text::{chars_of, nat_decimal, push_str, u64_to_string, lemma_encode_concat};

verus! {

// ------------------------------------------------------------------
// Tokens and connection
// ------------------------------------------------------------------

/// A token starts with `ct_` and has at least 10 bytes.
pub open spec fn token_format_ok(t: Seq<char>) -> bool {
    t.len() >= 3 && t.take(3) == "ct_"@ && encode_utf8(t).len() >= 10
}

/// Checks a token's form before it is tried.
pub fn check_token_format(token: &str) -> (r: Result<(), String>)
    ensures
        token_format_ok(token@) ==> r is Ok,
        !token_format_ok(token@) ==> (r matches Err(e) && e@
            == "Invalid token format. Token must start with 'ct_'."@),
{
    proof {
        reveal_strlit("ct_");
    }
    let cs = chars_of(token);
    let prefix_ok = cs.len() >= 3 && cs[0] == 'c' && cs[1] == 't' && cs[2] == '_';
    assert(prefix_ok <==> (token@.len() >= 3 && token@.take(3) == "ct_"@)) by {
        if token@.len() >= 3 && token@.take(3) == "ct_"@ {
            assert(token@.take(3)[0] == 'c' && token@.take(3)[1] == 't' && token@.take(3)[2] == '_');
        }
        if prefix_ok {
            assert(token@.take(3) =~= "ct_"@);
        }
    }
    let bytes = token.as_bytes().len();
    assert(bytes == encode_utf8(token@).len());
    if !prefix_ok || bytes < 10 {
        return Err("Invalid token format. Token must start with 'ct_'.".to_owned());
    }
    Ok(())
}

/// `{imported} imported, {updated} updated`.
pub open spec fn sync_summary(imported: u32, updated: u32) -> Seq<char> {
    nat_decimal(imported as nat) + " imported, "@ + nat_decimal(updated as nat) + " updated"@
}

/// `c` is the connection that the status reply `s` describes.
pub open spec fn connected_as(c: ConnectionStatus, s: StatusResponse) -> bool {
    &&& c.connected
    &&& c.user_name matches Some(n) && n@ == s.user.display_name@
    &&& c.character_count == Some(s.character_count)
    &&& match s.last_sync {
        Some(l) => {
            &&& c.last_sync_time matches Some(t) && t@ == l.timestamp@
            &&& c.last_sync_result matches Some(m) && m@ == sync_summary(l.imported, l.updated)
        },
        None => c.last_sync_time is None && c.last_sync_result is None,
    }
}

/// The connection that a status reply describes.
pub fn connection_from_status(status: &StatusResponse) -> (r: ConnectionStatus)
    ensures
        connected_as(r, *status),
{
    let (last_sync_time, last_sync_result) = match &status.last_sync {
        Some(l) => {
            let mut m = String::new();
            push_str(&mut m, u64_to_string(l.imported as u64).as_str());
            push_str(&mut m, " imported, ");
            push_str(&mut m, u64_to_string(l.updated as u64).as_str());
            push_str(&mut m, " updated");
            assert(m@ =~= sync_summary(l.imported, l.updated));
            (Some(l.timestamp.clone()), Some(m))
        },
        None => (None, None),
    };
    ConnectionStatus {
        connected: true,
        user_name: Some(status.user.display_name.clone()),
        character_count: Some(status.character_count),
        last_sync_time,
        last_sync_result,
    }
}

/// The settings other than the token are those of `b`.
pub open spec fn same_but_token(a: Settings, b: Settings) -> bool {
    a.wow_path == b.wow_path && a.wow_account == b.wow_account && a.auto_start == b.auto_start
        && a.auto_sync == b.auto_sync
}

/// `app2`'s log is `app1`'s with one entry of this level and message added,
/// stamped with a time of day `HH:MM:SS`.
pub open spec fn logged(app1: AppState, app2: AppState, level: LogLevel, message: Seq<char>) -> bool {
    exists|t: Seq<char>|
        t.len() == 8 && t[2] == ':' && t[5] == ':' && views(app2.log_entries@) == #[trigger] log_after(
            views(app1.log_entries@),
            LogLine { timestamp: t, level, message },
        )
}

/// Records an accepted token: it is kept, the connection is the one the
/// status reply describes, and `Connected as <name>` is logged.
pub fn record_connected(app: &mut AppState, token: String, status: &StatusResponse) -> (r:
    ConnectionStatus)
    ensures
        connected_as(r, *status),
        connected_as(final(app).connection, *status),
        final(app).settings.api_token == Some(token),
        same_but_token(final(app).settings, old(app).settings),
        logged(*old(app), *final(app), LogLevel::Success, "Connected as "@ + status.user.display_name@),
        final(app).watcher_running == old(app).watcher_running,
{
    let conn = connection_from_status(status);
    app.settings.api_token = Some(token);
    app.connection = connection_from_status(status);
    let mut m = String::new();
    push_str(&mut m, "Connected as ");
    push_str(&mut m, status.user.display_name.as_str());
    assert(m@ =~= "Connected as "@ + status.user.display_name@);
    app.add_log(LogLevel::Success, m.as_str());
    conn
}

/// Records a refused token: the connection is reset and
/// `Connection failed: <error>` is logged and returned.
pub fn record_connection_failed(app: &mut AppState, err: &ApiError) -> (r: String)
    ensures
        r@ == "Connection failed: "@ + api_error_text(*err),
        !final(app).connection.connected,
        final(app).connection.user_name is None,
        final(app).connection.character_count is None,
        final(app).connection.last_sync_time is None,
        final(app).connection.last_sync_result is None,
        final(app).settings == old(app).settings,
        logged(*old(app), *final(app), LogLevel::Error, r@),
        final(app).watcher_running == old(app).watcher_running,
{
    app.connection = ConnectionStatus::default();
    let mut m = String::new();
    push_str(&mut m, "Connection failed: ");
    push_str(&mut m, err.describe().as_str());
    assert(m@ =~= "Connection failed: "@ + api_error_text(*err));
    app.add_log(LogLevel::Error, m.as_str());
    m
}

/// The configured token, or `No API token configured`.
pub fn configured_token(settings: &Settings) -> (r: Result<String, String>)
    ensures
        settings.api_token matches Some(t) ==> r == Ok::<String, String>(t),
        settings.api_token is None ==> (r matches Err(e) && e@ == "No API token configured"@),
{
    match &settings.api_token {
        Some(t) => Ok(t.clone()),
        None => Err("No API token configured".to_owned()),
    }
}

/// Records the answer to a connection check: the connection that a status
/// reply describes, or, on an error, not connected (the rest kept) and the
/// error's text.
pub fn record_check(app: &mut AppState, result: Result<StatusResponse, ApiError>) -> (r: Result<
    ConnectionStatus,
    String,
>)
    ensures
        final(app).settings == old(app).settings,
        final(app).log_entries == old(app).log_entries,
        final(app).watcher_running == old(app).watcher_running,
        match result {
            Ok(s) => r matches Ok(c) && connected_as(c, s) && connected_as(final(app).connection, s),
            Err(e) => r matches Err(m) && m@ == api_error_text(e) && !final(app).connection.connected
                && final(app).connection.user_name == old(app).connection.user_name
                && final(app).connection.character_count == old(app).connection.character_count
                && final(app).connection.last_sync_time == old(app).connection.last_sync_time
                && final(app).connection.last_sync_result == old(app).connection.last_sync_result,
        },
{
    match result {
        Ok(status) => {
            let conn = connection_from_status(&status);
            app.connection = connection_from_status(&status);
            Ok(conn)
        },
        Err(e) => {
            app.connection.connected = false;
            Err(e.describe())
        },
    }
}

// ------------------------------------------------------------------
// Sync
// ------------------------------------------------------------------

/// What a sync needs: the token, the WoW folder and the account, or the
/// first of them that is missing.
pub fn sync_target(settings: &Settings) -> (r: Result<(String, String, String), String>)
    ensures
        settings.api_token is None ==> (r matches Err(e) && e@ == "No API token configured"@),
        settings.api_token is Some && settings.wow_path is None ==> (r matches Err(e) && e@
            == "WoW path not configured"@),
        settings.api_token is Some && settings.wow_path is Some && settings.wow_account is None ==> (r
            matches Err(e) && e@ == "WoW account not selected"@),
        settings.api_token is Some && settings.wow_path is Some && settings.wow_account is Some ==> r
            == Ok::<(String, String, String), String>(
            (settings.api_token->0, settings.wow_path->0, settings.wow_account->0),
        ),
{
    let token = match &settings.api_token {
        Some(t) => t.clone(),
        None => {
            return Err("No API token configured".to_owned());
        },
    };
    let path = match &settings.wow_path {
        Some(p) => p.clone(),
        None => {
            return Err("WoW path not configured".to_owned());
        },
    };
    let account = match &settings.wow_account {
        Some(a) => a.clone(),
        None => {
            return Err("WoW account not selected".to_owned());
        },
    };
    Ok((token, path, account))
}

/// The message for a missing `CharTracker.lua`.
pub fn missing_chartracker_message(path_text: &str) -> (r: String)
    ensures
        r@ == "CharTracker.lua not found at "@ + path_text@
            + ". Make sure the addon is installed and you've logged in at least once."@,
{
    let mut m = String::new();
    push_str(&mut m, "CharTracker.lua not found at ");
    push_str(&mut m, path_text);
    push_str(&mut m, ". Make sure the addon is installed and you've logged in at least once.");
    assert(m@ =~= "CharTracker.lua not found at "@ + path_text@
        + ". Make sure the addon is installed and you've logged in at least once."@);
    m
}

/// What to do after a failed read of a file that may be locked by the game.
pub enum ReadStep {
    /// Wait a second and read again.
    Retry,
    /// Stop, with this error.
    GiveUp(String),
}

/// The decision after read attempt `attempt` (counted from 0) of
/// `max_retries` failed with `error_text`: read again while attempts are
/// left, else give up with
/// `Could not read {path}: {error} (tried {max_retries} times)`.
pub fn after_failed_read(attempt: u32, max_retries: u32, path_text: &str, error_text: &str) -> (r:
    ReadStep)
    requires
        attempt < max_retries,
    ensures
        attempt + 1 < max_retries ==> r is Retry,
        attempt + 1 >= max_retries ==> (r matches ReadStep::GiveUp(m) && m@ == "Could not read "@
            + path_text@ + ": "@ + error_text@ + " (tried "@ + nat_decimal(max_retries as nat)
            + " times)"@),
{
    if attempt + 1 < max_retries {
        return ReadStep::Retry;
    }
    let mut m = String::new();
    push_str(&mut m, "Could not read ");
    push_str(&mut m, path_text);
    push_str(&mut m, ": ");
    push_str(&mut m, error_text);
    push_str(&mut m, " (tried ");
    push_str(&mut m, u64_to_string(max_retries as u64).as_str());
    push_str(&mut m, " times)");
    assert(m@ =~= "Could not read "@ + path_text@ + ": "@ + error_text@ + " (tried "@
        + nat_decimal(max_retries as nat) + " times)"@);
    ReadStep::GiveUp(m)
}

/// The export to send from the text of `CharTracker.lua`: `CharTrackerDB`,
/// which must have `characters`.
pub fn chartracker_export(content: &str) -> (r: Result<Value, String>)
    requires
        !(read_saved_variable(content@, chartracker_db_name()) is Abort),
    ensures
        match read_saved_variable(content@, chartracker_db_name()) {
            Scan::Done(m, _) => if field(m, "characters"@) is Some {
                r matches Ok(v) && v.model() == m
            } else {
                r matches Err(e) && e@ == "Invalid CharTracker data: no characters field"@
            },
            Scan::Fail(f, at) => r matches Err(e) && e@ == "Failed to parse CharTracker.lua: "@
                + parse_error_text(fault_message(f), at),
            Scan::Abort => false,
        },
{
    match chartracker_export_checked(content) {
        Some(r) => r,
        None => Err(String::new()),
    }
}

/// As [`chartracker_export`], on every text: `None` exactly where reading
/// `CharTrackerDB` stops abnormally (a table's array index past `i64::MAX`).
pub fn chartracker_export_checked(content: &str) -> (r: Option<Result<Value, String>>)
    ensures
        match read_saved_variable(content@, chartracker_db_name()) {
            Scan::Done(m, _) => if field(m, "characters"@) is Some {
                r matches Some(Ok(v)) && v.model() == m
            } else {
                r matches Some(Err(e)) && e@ == "Invalid CharTracker data: no characters field"@
            },
            Scan::Fail(f, at) => r matches Some(Err(e)) && e@ == "Failed to parse CharTracker.lua: "@
                + parse_error_text(fault_message(f), at),
            Scan::Abort => r is None,
        },
{
    proof {
        reveal_strlit("CharTrackerDB");
    }
    assert("CharTrackerDB"@ =~= chartracker_db_name());
    match parse_saved_variable_checked(content, "CharTrackerDB") {
        None => None,
        Some(Ok(v)) => {
            if v.get("characters").is_none() {
                return Some(Err("Invalid CharTracker data: no characters field".to_owned()));
            }
            Some(Ok(v))
        },
        Some(Err(e)) => {
            let mut m = String::new();
            push_str(&mut m, "Failed to parse CharTracker.lua: ");
            push_str(&mut m, e.describe().as_str());
            assert(m@ =~= "Failed to parse CharTracker.lua: "@ + parse_error_text(
                e.message@,
                e.position as int,
            ));
            Some(Err(m))
        },
    }
}

/// `Synced {synced} new, {updated} updated characters`.
pub open spec fn synced_text(synced: u32, updated: u32) -> Seq<char> {
    "Synced "@ + nat_decimal(synced as nat) + " new, "@ + nat_decimal(updated as nat)
        + " updated characters"@
}

/// Records a sync's outcome. Accepted: connected, the reply's time and a
/// summary kept as the last sync and logged. Token refused: not connected,
/// logged, and the user told to make a new token. Otherwise the error is
/// logged and returned as `Sync failed: <error>`.
pub fn record_sync_result(app: &mut AppState, result: Result<SyncResponse, ApiError>) -> (r: Result<
    String,
    String,
>)
    ensures
        final(app).settings == old(app).settings,
        final(app).watcher_running == old(app).watcher_running,
        match result {
            Ok(s) => r matches Ok(m) && {
                &&& m@ == synced_text(s.synced, s.updated)
                &&& final(app).connection.connected
                &&& final(app).connection.last_sync_time == Some(s.timestamp)
                &&& (final(app).connection.last_sync_result matches Some(lr) && lr@ == m@)
                &&& final(app).connection.user_name == old(app).connection.user_name
                &&& final(app).connection.character_count == old(app).connection.character_count
                &&& logged(*old(app), *final(app), LogLevel::Success, m@)
            },
            Err(ApiError::Unauthorized(_)) => r matches Err(m) && m@
                == "Token expired or revoked. Please generate a new token on the website."@
                && !final(app).connection.connected && final(app).connection.user_name == old(
                app,
            ).connection.user_name && final(app).connection.character_count == old(
                app,
            ).connection.character_count && final(app).connection.last_sync_time == old(
                app,
            ).connection.last_sync_time && final(app).connection.last_sync_result == old(
                app,
            ).connection.last_sync_result && logged(
                *old(app),
                *final(app),
                LogLevel::Error,
                "Token expired or revoked"@,
            ),
            Err(e) => r matches Err(m) && m@ == "Sync failed: "@ + api_error_text(e)
                && final(app).connection == old(app).connection && logged(
                *old(app),
                *final(app),
                LogLevel::Error,
                m@,
            ),
        },
{
    match result {
        Ok(response) => {
            let mut m = String::new();
            push_str(&mut m, "Synced ");
            push_str(&mut m, u64_to_string(response.synced as u64).as_str());
            push_str(&mut m, " new, ");
            push_str(&mut m, u64_to_string(response.updated as u64).as_str());
            push_str(&mut m, " updated characters");
            assert(m@ =~= synced_text(response.synced, response.updated));
            app.connection.connected = true;
            app.connection.last_sync_time = Some(response.timestamp);
            app.connection.last_sync_result = Some(m.clone());
            app.add_log(LogLevel::Success, m.as_str());
            Ok(m)
        },
        Err(ApiError::Unauthorized(_)) => {
            app.connection.connected = false;
            app.add_log(LogLevel::Error, "Token expired or revoked");
            Err("Token expired or revoked. Please generate a new token on the website.".to_owned())
        },
        Err(e) => {
            let mut m = String::new();
            push_str(&mut m, "Sync failed: ");
            push_str(&mut m, e.describe().as_str());
            assert(m@ =~= "Sync failed: "@ + api_error_text(e));
            app.add_log(LogLevel::Error, m.as_str());
            Err(m)
        },
    }
}

// ------------------------------------------------------------------
// WoW folder and watcher
// ------------------------------------------------------------------

/// Records a detected WoW folder `root` with its accounts: none is an error
/// and changes nothing; otherwise the folder is kept, an account is selected
/// when none was (the first with CharTracker data, else the first), and the
/// find is logged.
pub fn record_wow_detection(app: &mut AppState, root: String, accounts: &Vec<WowAccount>) -> (r:
    Result<(), String>)
    ensures
        accounts@.len() == 0 ==> (r matches Err(e) && e@ == "WoW found at "@ + root@
            + " but no Classic accounts detected."@ && *final(app) == *old(app)),
        accounts@.len() > 0 ==> {
            &&& r is Ok
            &&& final(app).settings.wow_path == Some(root)
            &&& final(app).settings.api_token == old(app).settings.api_token
            &&& final(app).settings.auto_start == old(app).settings.auto_start
            &&& final(app).settings.auto_sync == old(app).settings.auto_sync
            &&& old(app).settings.wow_account is Some ==> final(app).settings.wow_account == old(
                app,
            ).settings.wow_account
            &&& old(app).settings.wow_account is None ==> exists|i: int|
                0 <= i < accounts@.len() && final(app).settings.wow_account == Some(
                    #[trigger] accounts@[i].account_name,
                ) && (accounts@[i].has_chartracker || (i == 0 && forall|j: int|
                    0 <= j < accounts@.len() ==> !(#[trigger] accounts@[j]).has_chartracker)) && (
                forall|j: int| 0 <= j < i ==> !(#[trigger] accounts@[j]).has_chartracker)
            &&& final(app).connection == old(app).connection
            &&& final(app).watcher_running == old(app).watcher_running
            &&& logged(
                *old(app),
                *final(app),
                LogLevel::Info,
                "Found WoW at "@ + root@ + ". "@ + nat_decimal(accounts@.len()) + " account(s) detected."@,
            )
        },
{
    if accounts.len() == 0 {
        let mut m = String::new();
        push_str(&mut m, "WoW found at ");
        push_str(&mut m, root.as_str());
        push_str(&mut m, " but no Classic accounts detected.");
        assert(m@ =~= "WoW found at "@ + root@ + " but no Classic accounts detected."@);
        return Err(m);
    }
    let mut m = String::new();
    push_str(&mut m, "Found WoW at ");
    push_str(&mut m, root.as_str());
    push_str(&mut m, ". ");
    push_str(&mut m, u64_to_string(accounts.len() as u64).as_str());
    push_str(&mut m, " account(s) detected.");
    assert(m@ =~= "Found WoW at "@ + root@ + ". "@ + nat_decimal(accounts@.len())
        + " account(s) detected."@);
    app.settings.wow_path = Some(root);
    if app.settings.wow_account.is_none() {
        if let Some(i) = default_account(accounts) {
            app.settings.wow_account = Some(accounts[i].account_name.clone());
        }
    }
    app.add_log(LogLevel::Info, m.as_str());
    Ok(())
}

/// What the automatic sync watches: the WoW folder and the account, when
/// auto-sync is on and a token, a folder and an account are configured.
pub fn auto_sync_target(settings: &Settings) -> (r: Option<(String, String)>)
    ensures
        settings.auto_sync && settings.api_token is Some && settings.wow_path is Some
            && settings.wow_account is Some ==> r == Some(
            (settings.wow_path->0, settings.wow_account->0),
        ),
        !(settings.auto_sync && settings.api_token is Some && settings.wow_path is Some
            && settings.wow_account is Some) ==> r is None,
{
    if !settings.auto_sync || settings.api_token.is_none() {
        return None;
    }
    match (&settings.wow_path, &settings.wow_account) {
        (Some(p), Some(a)) => Some((p.clone(), a.clone())),
        _ => None,
    }
}

/// Records what the watcher reported and says whether to sync: a change of
/// `CharTracker.lua` is logged and syncs; an error is logged; a change of
/// `Gargul.lua` does nothing.
pub fn on_watcher_event(app: &mut AppState, event: &WatcherEvent) -> (r: bool)
    ensures
        final(app).settings == old(app).settings,
        final(app).connection == old(app).connection,
        final(app).watcher_running == old(app).watcher_running,
        match event {
            WatcherEvent::FileChanged(_) => r && logged(
                *old(app),
                *final(app),
                LogLevel::Info,
                "CharTracker.lua changed, syncing..."@,
            ),
            WatcherEvent::GargulChanged(_) => !r && *final(app) == *old(app),
            WatcherEvent::Error(e) => !r && logged(
                *old(app),
                *final(app),
                LogLevel::Error,
                "File watcher error: "@ + e@,
            ),
        },
{
    match event {
        WatcherEvent::FileChanged(_) => {
            app.add_log(LogLevel::Info, "CharTracker.lua changed, syncing...");
            true
        },
        WatcherEvent::GargulChanged(_) => false,
        WatcherEvent::Error(e) => {
            let mut m = String::new();
            push_str(&mut m, "File watcher error: ");
            push_str(&mut m, e.as_str());
            assert(m@ =~= "File watcher error: "@ + e@);
            app.add_log(LogLevel::Error, m.as_str());
            false
        },
    }
}

/// A token is accepted exactly when it starts with `ct_` and is at least ten
/// bytes long, however long it is beyond that: so whatever is appended to an
/// accepted token, it stays accepted.
pub proof fn lemma_token_acceptance(t: Seq<char>, more: Seq<char>)
    ensures
        token_format_ok(t) <==> (t.len() >= 3 && t[0] == 'c' && t[1] == 't' && t[2] == '_'
            && encode_utf8(t).len() >= 10),
        token_format_ok(t) ==> token_format_ok(t + more),
{
    reveal_strlit("ct_");
    if t.len() >= 3 {
        if t[0] == 'c' && t[1] == 't' && t[2] == '_' {
            assert(t.take(3) =~= "ct_"@);
        }
        if t.take(3) == "ct_"@ {
            assert(t.take(3)[0] == 'c' && t.take(3)[1] == 't' && t.take(3)[2] == '_');
        }
    }
    lemma_encode_concat(t, more);
    if token_format_ok(t) {
        assert((t + more).take(3) =~= t.take(3));
    }
}

} // verus!
