//! The WoW installation: its root folder as the user may give it, the
//! account folders under it, and which account to use by default.

use vstd::prelude::*;
use crate::text::{chars_of, string_of, str_eq};

verus! {

/// An account folder under `_classic_\WTF\Account`.
#[derive(Debug)]
pub struct WowAccount {
    pub account_name: String,
    pub saved_variables_path: String,
    pub has_chartracker: bool,
}

/// `s` ends with `t`.
pub open spec fn ends_with(s: Seq<char>, t: Seq<char>) -> bool {
    t.len() <= s.len() && s.skip(s.len() - t.len()) == t
}

/// A path separator: `\` or `/`.
pub open spec fn is_sep(c: char) -> bool {
    c == '\\' || c == '/'
}

/// `s` without the separators at its end.
pub open spec fn trim_seps(s: Seq<char>) -> Seq<char>
    decreases s.len(),
{
    if s.len() > 0 && is_sep(s.last()) {
        trim_seps(s.drop_last())
    } else {
        s
    }
}

/// Where the path `s`, without its separators at the end, has `suffix` as its
/// last folder (the whole name, at the start or after a separator): the text
/// before that folder, its separator kept.
pub open spec fn strip_flavor(s: Seq<char>, suffix: Seq<char>) -> Option<Seq<char>> {
    let trimmed = trim_seps(s);
    let k = trimmed.len() - suffix.len();
    if ends_with(trimmed, suffix) && (k == 0 || is_sep(trimmed[k - 1])) {
        Some(trimmed.take(k))
    } else {
        None
    }
}

/// The installation root for a path that names a flavor folder (`_classic_`,
/// `_classic_era_` or `_retail_`, tried in that order); `None` when the path
/// is the root already.
pub open spec fn install_root(s: Seq<char>) -> Option<Seq<char>> {
    match strip_flavor(s, "_classic_"@) {
        Some(r) => Some(r),
        None => match strip_flavor(s, "_classic_era_"@) {
            Some(r) => Some(r),
            None => strip_flavor(s, "_retail_"@),
        },
    }
}

pub open spec fn string_opt(t: Option<String>) -> Option<Seq<char>> {
    match t {
        Some(s) => Some(s@),
        None => None,
    }
}

fn ends_with_chars(s: &Vec<char>, n: usize, t: &Vec<char>) -> (r: bool)
    requires
        n <= s.len(),
    ensures
        r == ends_with(s@.take(n as int), t@),
{
    if t.len() > n {
        return false;
    }
    let start = n - t.len();
    let mut k: usize = 0;
    while k < t.len()
        invariant
            start + t.len() == n,
            n <= s.len(),
            k <= t.len(),
            forall|q: int| 0 <= q < k ==> s@[start + q] == t@[q],
        decreases t.len() - k,
    {
        if s[start + k] != t[k] {
            assert(s@.take(n as int).skip(start as int)[k as int] != t@[k as int]);
            return false;
        }
        k = k + 1;
    }
    assert(s@.take(n as int).skip(start as int) =~= t@);
    true
}

fn trim_seps_len(s: &Vec<char>) -> (m: usize)
    ensures
        m <= s.len(),
        s@.take(m as int) == trim_seps(s@),
{
    let mut m = s.len();
    assert(s@.take(m as int) =~= s@);
    while m > 0 && (s[m - 1] == '\\' || s[m - 1] == '/')
        invariant
            m <= s.len(),
            trim_seps(s@.take(m as int)) == trim_seps(s@),
        decreases m,
    {
        assert(s@.take(m as int).drop_last() =~= s@.take(m - 1));
        m = m - 1;
    }
    m
}

fn strip_one(s: &Vec<char>, suffix: &str) -> (r: Option<String>)
    ensures
        string_opt(r) == strip_flavor(s@, suffix@),
{
    let t = chars_of(suffix);
    let n = trim_seps_len(s);
    if ends_with_chars(s, n, &t) {
        let k = n - t.len();
        if k == 0 || s[k - 1] == '\\' || s[k - 1] == '/' {
            let out = string_of(s, 0, k);
            assert(out@ =~= s@.take(n as int).take(k as int));
            return Some(out);
        }
    }
    None
}

/// The installation root for a path that the user may have given with a
/// flavor folder at its end (`...\World of Warcraft\_classic_` gives
/// `...\World of Warcraft\`, the same folder); `None` when the path does not
/// end in a flavor folder (`D:\Games\my_retail_` is kept as it is).
pub fn flavor_stripped(path_text: &str) -> (r: Option<String>)
    ensures
        string_opt(r) == install_root(path_text@),
{
    let s = chars_of(path_text);
    match strip_one(&s, "_classic_") {
        Some(r) => Some(r),
        None => match strip_one(&s, "_classic_era_") {
            Some(r) => Some(r),
            None => strip_one(&s, "_retail_"),
        },
    }
}

/// A folder under `WTF\Account` that is an account: not hidden (`.`) and not
/// `SavedVariables`.
pub fn is_account_folder(name: &str) -> (r: bool)
    ensures
        r == !((name@.len() > 0 && name@[0] == '.') || name@ == "SavedVariables"@),
{
    let cs = chars_of(name);
    let hidden = cs.len() > 0 && cs[0] == '.';
    !(hidden || str_eq(name, "SavedVariables"))
}

/// The account to select when none is: the first with CharTracker data, else
/// the first; `None` when there is none.
pub fn default_account(accounts: &Vec<WowAccount>) -> (r: Option<usize>)
    ensures
        accounts@.len() == 0 ==> r is None,
        (exists|j: int| 0 <= j < accounts@.len() && #[trigger] accounts@[j].has_chartracker) ==> (r
            matches Some(i) && i < accounts@.len() && accounts@[i as int].has_chartracker && forall|
            j: int,
        | 0 <= j < i ==> !(#[trigger] accounts@[j]).has_chartracker),
        accounts@.len() > 0 && (forall|j: int|
            0 <= j < accounts@.len() ==> !(#[trigger] accounts@[j]).has_chartracker) ==> r == Some(
            0usize,
        ),
{
    let mut i: usize = 0;
    while i < accounts.len()
        invariant
            i <= accounts.len(),
            forall|j: int| 0 <= j < i ==> !(#[trigger] accounts@[j]).has_chartracker,
        decreases accounts.len() - i,
    {
        if accounts[i].has_chartracker {
            return Some(i);
        }
        i = i + 1;
    }
    if accounts.len() > 0 {
        Some(0)
    } else {
        None
    }
}

} // verus!
