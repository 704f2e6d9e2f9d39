use std::path::PathBuf;

use raidhub_companion::api::{
    bearer, endpoint_url, parse_failure, status_error, ApiError, LastSyncInfo, StatusResponse,
    SyncResponse, UserInfo,
};
use raidhub_companion::app_state::{AppState, ConnectionStatus, LogLevel, Settings};
use raidhub_companion::commands::{
    after_failed_read, auto_sync_target, check_token_format, chartracker_export, chartracker_export_checked,
    configured_token,
    connection_from_status, missing_chartracker_message, on_watcher_event, record_check,
    record_connected, record_connection_failed, record_sync_result, record_wow_detection,
    sync_target, ReadStep,
};
use raidhub_companion::watcher::{event_for_lowercase_name, watcher_event, WatcherEvent};
use raidhub_companion::wow::{default_account, flavor_stripped, is_account_folder, WowAccount};

fn status(last: Option<(u32, u32)>) -> StatusResponse {
    StatusResponse {
        connected: true,
        auth_method: "token".to_string(),
        user: UserInfo {
            display_name: "Jaina".to_string(),
            discord_username: None,
            avatar_url: None,
        },
        last_sync: last.map(|(imported, updated)| LastSyncInfo {
            timestamp: "2026-01-01T00:00:00Z".to_string(),
            imported,
            updated,
        }),
        character_count: 7,
    }
}

fn account(name: &str, has: bool) -> WowAccount {
    WowAccount {
        account_name: name.to_string(),
        saved_variables_path: format!("/wtf/{}/SavedVariables", name),
        has_chartracker: has,
    }
}

#[test]
fn state_defaults() {
    let s = Settings::default();
    assert!(s.api_token.is_none() && s.wow_path.is_none() && s.wow_account.is_none());
    assert!(!s.auto_start && s.auto_sync);
    let c = ConnectionStatus::default();
    assert!(!c.connected && c.user_name.is_none());
    let a = AppState::default();
    assert!(a.log_entries.is_empty() && !a.watcher_running);
}

#[test]
fn log_keeps_the_last_fifty_entries() {
    let mut app = AppState::default();
    for i in 0..60 {
        app.add_log_at(format!("t{}", i), LogLevel::Info, &format!("m{}", i));
        assert!(app.log_entries.len() <= 50);
    }
    assert_eq!(app.log_entries.len(), 50);
    assert_eq!(app.log_entries[0].message, "m10");
    assert_eq!(app.log_entries[0].timestamp, "t10");
    assert_eq!(app.log_entries[49].message, "m59");
}

#[test]
fn log_stamps_with_time_of_day() {
    let mut app = AppState::default();
    app.add_log(LogLevel::Warning, "careful");
    let e = &app.log_entries[0];
    assert_eq!(e.level, LogLevel::Warning);
    assert_eq!(e.message, "careful");
    let t: Vec<char> = e.timestamp.chars().collect();
    assert_eq!(t.len(), 8);
    assert_eq!(t[2], ':');
    assert_eq!(t[5], ':');
}

#[test]
fn api_error_texts() {
    assert_eq!(ApiError::Unauthorized(String::new()).describe(), "Token expired or revoked");
    assert_eq!(ApiError::Unauthorized("gone".to_string()).describe(), "Token expired or revoked (gone)");
    assert_eq!(ApiError::BadRequest("x".to_string()).describe(), "Bad request: x");
    assert_eq!(ApiError::ServerError("y".to_string()).describe(), "Server error: y");
    assert_eq!(ApiError::NetworkError("z".to_string()).describe(), "Network error: z");
}

#[test]
fn api_status_errors() {
    assert!(matches!(status_error(401, "t".to_string(), false), ApiError::Unauthorized(t) if t == "t"));
    assert!(matches!(status_error(400, "b".to_string(), true), ApiError::BadRequest(t) if t == "b"));
    assert!(matches!(status_error(400, "b".to_string(), false), ApiError::ServerError(t) if t == "HTTP 400: b"));
    assert!(matches!(status_error(503, "down".to_string(), true), ApiError::ServerError(t) if t == "HTTP 503: down"));
    assert!(matches!(parse_failure("eof"), ApiError::ServerError(t) if t == "Failed to parse response: eof"));
    assert_eq!(endpoint_url("/api/chartracker/sync"), "https://www.goldschweine.de/api/chartracker/sync");
    assert_eq!(bearer("ct_abc"), "Bearer ct_abc");
}

#[test]
fn token_format() {
    assert!(check_token_format("ct_1234567").is_ok());
    assert_eq!(
        check_token_format("ct_123456").unwrap_err(),
        "Invalid token format. Token must start with 'ct_'."
    );
    assert!(check_token_format("xt_1234567").is_err());
    // Ten bytes, though fewer characters.
    assert!(check_token_format("ct_ééé1").is_ok());
}

#[test]
fn connection_from_a_status_reply() {
    let c = connection_from_status(&status(Some((3, 4))));
    assert!(c.connected);
    assert_eq!(c.user_name.as_deref(), Some("Jaina"));
    assert_eq!(c.character_count, Some(7));
    assert_eq!(c.last_sync_time.as_deref(), Some("2026-01-01T00:00:00Z"));
    assert_eq!(c.last_sync_result.as_deref(), Some("3 imported, 4 updated"));
    let c = connection_from_status(&status(None));
    assert!(c.last_sync_time.is_none() && c.last_sync_result.is_none());
}

#[test]
fn connecting_and_failing() {
    let mut app = AppState::default();
    let c = record_connected(&mut app, "ct_1234567".to_string(), &status(None));
    assert!(c.connected);
    assert_eq!(app.settings.api_token.as_deref(), Some("ct_1234567"));
    assert_eq!(app.log_entries.last().unwrap().message, "Connected as Jaina");
    assert_eq!(app.log_entries.last().unwrap().level, LogLevel::Success);
    let m = record_connection_failed(&mut app, &ApiError::NetworkError("dns".to_string()));
    assert_eq!(m, "Connection failed: Network error: dns");
    assert!(!app.connection.connected && app.connection.user_name.is_none());
    assert_eq!(app.log_entries.last().unwrap().message, m);
    assert_eq!(configured_token(&app.settings).unwrap(), "ct_1234567");
    assert_eq!(configured_token(&Settings::default()).unwrap_err(), "No API token configured");
}

#[test]
fn checking_the_connection() {
    let mut app = AppState::default();
    let c = record_check(&mut app, Ok(status(Some((1, 2))))).unwrap();
    assert!(c.connected && app.connection.connected);
    let e = record_check(&mut app, Err(ApiError::Unauthorized(String::new()))).unwrap_err();
    assert_eq!(e, "Token expired or revoked");
    assert!(!app.connection.connected);
    assert_eq!(app.connection.user_name.as_deref(), Some("Jaina"));
    assert!(app.log_entries.is_empty());
}

#[test]
fn sync_preconditions_and_outcomes() {
    let mut settings = Settings::default();
    assert_eq!(sync_target(&settings).unwrap_err(), "No API token configured");
    settings.api_token = Some("ct_1234567".to_string());
    assert_eq!(sync_target(&settings).unwrap_err(), "WoW path not configured");
    settings.wow_path = Some("C:\\WoW".to_string());
    assert_eq!(sync_target(&settings).unwrap_err(), "WoW account not selected");
    settings.wow_account = Some("ACC".to_string());
    let (t, p, a) = sync_target(&settings).unwrap();
    assert_eq!((t.as_str(), p.as_str(), a.as_str()), ("ct_1234567", "C:\\WoW", "ACC"));

    let mut app = AppState::default();
    let ok = record_sync_result(
        &mut app,
        Ok(SyncResponse { synced: 2, updated: 5, timestamp: "now".to_string() }),
    )
    .unwrap();
    assert_eq!(ok, "Synced 2 new, 5 updated characters");
    assert!(app.connection.connected);
    assert_eq!(app.connection.last_sync_time.as_deref(), Some("now"));
    assert_eq!(app.connection.last_sync_result.as_deref(), Some(ok.as_str()));

    let err = record_sync_result(&mut app, Err(ApiError::Unauthorized("x".to_string()))).unwrap_err();
    assert_eq!(err, "Token expired or revoked. Please generate a new token on the website.");
    assert!(!app.connection.connected);
    assert_eq!(app.log_entries.last().unwrap().message, "Token expired or revoked");

    let err = record_sync_result(&mut app, Err(ApiError::ServerError("HTTP 500: x".to_string()))).unwrap_err();
    assert_eq!(err, "Sync failed: Server error: HTTP 500: x");
    assert_eq!(app.log_entries.last().unwrap().level, LogLevel::Error);
    assert_eq!(app.log_entries.len(), 3);
}

#[test]
fn chartracker_export_checks() {
    let v = chartracker_export("CharTrackerDB = { characters = {} }").unwrap();
    assert!(v.get("characters").is_some());
    assert_eq!(
        chartracker_export("CharTrackerDB = { version = 1 }").unwrap_err(),
        "Invalid CharTracker data: no characters field"
    );
    assert_eq!(
        chartracker_export("Other = {}").unwrap_err(),
        "Failed to parse CharTracker.lua: Parse error at position 0: variable 'CharTrackerDB' not found in file"
    );
    assert_eq!(
        missing_chartracker_message("C:\\x"),
        "CharTracker.lua not found at C:\\x. Make sure the addon is installed and you've logged in at least once."
    );
}

#[test]
fn wow_detection_selects_an_account() {
    let mut app = AppState::default();
    let none: Vec<WowAccount> = Vec::new();
    assert_eq!(
        record_wow_detection(&mut app, "C:\\WoW".to_string(), &none).unwrap_err(),
        "WoW found at C:\\WoW but no Classic accounts detected."
    );
    assert!(app.settings.wow_path.is_none());
    let accounts = vec![account("A", false), account("B", true), account("C", true)];
    record_wow_detection(&mut app, "C:\\WoW".to_string(), &accounts).unwrap();
    assert_eq!(app.settings.wow_path.as_deref(), Some("C:\\WoW"));
    assert_eq!(app.settings.wow_account.as_deref(), Some("B"));
    assert_eq!(app.log_entries.last().unwrap().message, "Found WoW at C:\\WoW. 3 account(s) detected.");
    // An account already selected stays.
    record_wow_detection(&mut app, "D:\\WoW".to_string(), &vec![account("Z", true)]).unwrap();
    assert_eq!(app.settings.wow_account.as_deref(), Some("B"));
    assert_eq!(default_account(&vec![account("X", false), account("Y", false)]), Some(0));
    assert_eq!(default_account(&Vec::new()), None);
}

#[test]
fn wow_root_and_account_folders() {
    assert_eq!(flavor_stripped("C:\\World of Warcraft\\_classic_").as_deref(), Some("C:\\World of Warcraft\\"));
    assert_eq!(flavor_stripped("C:\\World of Warcraft\\_classic_\\").as_deref(), Some("C:\\World of Warcraft\\"));
    assert_eq!(flavor_stripped("/games/wow/_retail_/").as_deref(), Some("/games/wow/"));
    assert_eq!(flavor_stripped("C:\\World of Warcraft\\_classic_era_").as_deref(), Some("C:\\World of Warcraft\\"));
    assert_eq!(flavor_stripped("C:\\x\\_classic_\\\\").as_deref(), Some("C:\\x\\"));
    assert_eq!(flavor_stripped("_retail_").as_deref(), Some(""));
    assert_eq!(flavor_stripped("C:\\World of Warcraft"), None);
    // Only a folder named exactly like a flavor is stripped.
    assert_eq!(flavor_stripped("D:\\Games\\my_retail_"), None);
    assert_eq!(flavor_stripped("D:\\Games\\x_classic_era_\\"), None);
    assert!(is_account_folder("12345#1"));
    assert!(!is_account_folder(".hidden"));
    assert!(!is_account_folder("SavedVariables"));
}

/// The WoW root for a path as a user may give it: the stripped text where a
/// flavor folder ends it, else the path itself.
fn wow_root(path: &str) -> String {
    flavor_stripped(path).unwrap_or_else(|| path.to_string())
}

/// Two Windows folder paths name the same folder (a separator at the end
/// changes nothing).
fn same_folder(a: &str, b: &str) -> bool {
    a.trim_end_matches(['\\', '/']) == b.trim_end_matches(['\\', '/'])
}

#[test]
fn test_normalize_wow_root_already_correct() {
    let path = r"C:\Program Files (x86)\World of Warcraft";
    assert_eq!(wow_root(path), path);
}

#[test]
fn test_normalize_wow_root_strips_classic() {
    let path = r"C:\Program Files (x86)\World of Warcraft\_classic_";
    let expected = r"C:\Program Files (x86)\World of Warcraft";
    assert!(same_folder(&wow_root(path), expected));
}

#[test]
fn test_normalize_wow_root_strips_classic_with_trailing_slash() {
    let path = r"C:\Program Files (x86)\World of Warcraft\_classic_\";
    let expected = r"C:\Program Files (x86)\World of Warcraft";
    assert!(same_folder(&wow_root(path), expected));
}

#[test]
fn test_normalize_wow_root_strips_classic_era() {
    let path = r"C:\World of Warcraft\_classic_era_";
    let expected = r"C:\World of Warcraft";
    assert!(same_folder(&wow_root(path), expected));
}

#[test]
fn test_normalize_wow_root_strips_retail() {
    let path = r"D:\Games\World of Warcraft\_retail_";
    let expected = r"D:\Games\World of Warcraft";
    assert!(same_folder(&wow_root(path), expected));
}

#[test]
fn watcher_events_and_auto_sync() {
    let p = PathBuf::from("/sv/CharTracker.lua");
    assert!(matches!(watcher_event("CharTracker.lua", p.clone()), Some(WatcherEvent::FileChanged(q)) if q == p));
    assert!(matches!(watcher_event("GARGUL.LUA", p.clone()), Some(WatcherEvent::GargulChanged(_))));
    assert!(watcher_event("Other.lua", p.clone()).is_none());
    assert!(event_for_lowercase_name("CharTracker.lua", p.clone()).is_none());

    let mut app = AppState::default();
    assert!(on_watcher_event(&mut app, &WatcherEvent::FileChanged(p.clone())));
    assert_eq!(app.log_entries.last().unwrap().message, "CharTracker.lua changed, syncing...");
    assert!(!on_watcher_event(&mut app, &WatcherEvent::GargulChanged(p.clone())));
    assert_eq!(app.log_entries.len(), 1);
    assert!(!on_watcher_event(&mut app, &WatcherEvent::Error("boom".to_string())));
    assert_eq!(app.log_entries.last().unwrap().message, "File watcher error: boom");

    let mut s = Settings::default();
    assert!(auto_sync_target(&s).is_none());
    s.api_token = Some("t".to_string());
    s.wow_path = Some("p".to_string());
    s.wow_account = Some("a".to_string());
    assert_eq!(auto_sync_target(&s), Some(("p".to_string(), "a".to_string())));
    s.auto_sync = false;
    assert!(auto_sync_target(&s).is_none());
}

#[test]
fn chartracker_export_checked_reading() {
    assert!(chartracker_export_checked("CharTrackerDB = { [9223372036854775807] = 1, 2 }").is_none());
    assert!(chartracker_export_checked("CharTrackerDB = { characters = {} }").unwrap().is_ok());
    assert_eq!(
        chartracker_export_checked("CharTrackerDB = { version = 1 }").unwrap().unwrap_err(),
        "Invalid CharTracker data: no characters field"
    );
}

#[test]
fn read_retries_then_gives_up() {
    assert!(matches!(after_failed_read(0, 3, "C:\\f.lua", "locked"), ReadStep::Retry));
    assert!(matches!(after_failed_read(1, 3, "C:\\f.lua", "locked"), ReadStep::Retry));
    match after_failed_read(2, 3, "C:\\f.lua", "locked") {
        ReadStep::GiveUp(m) => assert_eq!(m, "Could not read C:\\f.lua: locked (tried 3 times)"),
        ReadStep::Retry => panic!("expected to give up"),
    }
    assert!(matches!(after_failed_read(0, 1, "x", "e"), ReadStep::GiveUp(_)));
}
