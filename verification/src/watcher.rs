//! What a change in the SavedVariables folder means: which of the watched
//! files changed (names compared without regard to case).

use vstd::prelude::*;
use std::path::PathBuf;

verus! {

#[verifier::external_type_specification]
#[verifier::external_body]
pub struct ExPathBuf(PathBuf);

/// What the folder watcher reports.
pub enum WatcherEvent {
    /// `CharTracker.lua` changed.
    FileChanged(PathBuf),
    /// `Gargul.lua` changed.
    GargulChanged(PathBuf),
    /// The watcher failed.
    Error(String),
}

/// What `str::to_lowercase` gives for a text.
pub uninterp spec fn lowercase(s: Seq<char>) -> Seq<char>;

/// The lower-case form of an ASCII character.
pub open spec fn ascii_lower(c: char) -> char {
    if 'A' <= c <= 'Z' {
        ((c as u32) + 32) as char
    } else {
        c
    }
}

/// Trusted: calls `str::to_lowercase`. Claimed: the result is a function of
/// the text alone, and an ASCII text maps character by character to its ASCII
/// lower-case form (the Unicode lower-case mapping of an ASCII character is
/// its ASCII one, which std applies to ASCII text).
#[verifier::external_body]
fn to_lowercase(s: &str) -> (r: String)
    ensures
        r@ == lowercase(s@),
        (forall|i: int| 0 <= i < s@.len() ==> (#[trigger] s@[i] as u32) < 128) ==> r@
            == s@.map_values(|c: char| ascii_lower(c)),
{
    s.to_lowercase()
}

/// The event for a change of the file `path`, whose name in lower case is
/// `name_lower`: `chartracker.lua` and `gargul.lua` are watched, other files
/// are not.
pub fn event_for_lowercase_name(name_lower: &str, path: PathBuf) -> (r: Option<WatcherEvent>)
    ensures
        name_lower@ == "chartracker.lua"@ ==> r == Some(WatcherEvent::FileChanged(path)),
        name_lower@ != "chartracker.lua"@ && name_lower@ == "gargul.lua"@ ==> r == Some(
            WatcherEvent::GargulChanged(path),
        ),
        name_lower@ != "chartracker.lua"@ && name_lower@ != "gargul.lua"@ ==> r is None,
{
    if crate::text::str_eq(name_lower, "chartracker.lua") {
        Some(WatcherEvent::FileChanged(path))
    } else if crate::text::str_eq(name_lower, "gargul.lua") {
        Some(WatcherEvent::GargulChanged(path))
    } else {
        None
    }
}

/// The event for a change of the file `path` named `file_name`.
pub fn watcher_event(file_name: &str, path: PathBuf) -> (r: Option<WatcherEvent>)
    ensures
        (forall|i: int| 0 <= i < file_name@.len() ==> (#[trigger] file_name@[i] as u32) < 128)
            ==> lowercase(file_name@) == file_name@.map_values(|c: char| ascii_lower(c)),
        lowercase(file_name@) == "chartracker.lua"@ ==> r == Some(WatcherEvent::FileChanged(path)),
        lowercase(file_name@) != "chartracker.lua"@ && lowercase(file_name@) == "gargul.lua"@ ==> r
            == Some(WatcherEvent::GargulChanged(path)),
        lowercase(file_name@) != "chartracker.lua"@ && lowercase(file_name@) != "gargul.lua"@ ==> r
            is None,
{
    let lower = to_lowercase(file_name);
    event_for_lowercase_name(lower.as_str(), path)
}

} // verus!
