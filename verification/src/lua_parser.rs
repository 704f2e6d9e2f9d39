//! Reader for WoW SavedVariables files: the restricted Lua subset of global
//! assignments, nested tables, strings, numbers, booleans and nil.
//!
//! The reading is stated by the spec functions below, over the characters of
//! the text after `Name = `. Positions in errors are byte offsets into that text.
//! One kind of input makes the reader stop abnormally: a table whose next
//! array index would count past `i64::MAX`. The spec functions call that
//! outcome `Abort`.

use vstd::prelude::*;
use vstd::utf8::encode_utf8;
use crate::text::{
    i64_to_string, chars_of, occurs_at, char_width, is_ascii_digit,
    is_alphanumeric, is_alphabetic, string_of, parse_i64_chars, str_eq, is_whitespace,
    lemma_byte_offset_mono, lemma_byte_offset_step, nat_decimal, push_char, push_str, u64_to_string,
    alphabetic, alphanumeric, is_letter, byte_offset, int_decimal, is_digit, is_white,
    parse_int_text,
};
use crate::value::{
    Model, Value, obj_insert, entries_model, values_model, lemma_model_array, lemma_model_object,
    table_insert,
};

verus! {

// ------------------------------------------------------------------
// Outcomes
// ------------------------------------------------------------------

/// Why reading stopped with an error.
pub enum Fault {
    ExpectedFound(char, char),
    ExpectedEnd(char),
    EscapeAtEnd,
    Unterminated,
    ExpectedNumber,
    InvalidInteger(Seq<char>),
    UnexpectedIdentifier(Seq<char>),
    UnexpectedChar(char),
    UnexpectedEnd,
    IdentifierInTable(Seq<char>),
    ExpectedKey,
    VariableNotFound(Seq<char>),
    ExpectedString,
    ExpectedQuote(char),
}

/// The outcome of reading from some position: a result and the position after
/// it, an error and the position it is reported at, or an abnormal stop.
pub enum Scan<T> {
    Done(T, int),
    Fail(Fault, int),
    Abort,
}

/// The message of an error.
pub open spec fn fault_message(f: Fault) -> Seq<char> {
    match f {
        Fault::ExpectedFound(e, c) => "expected '"@ + seq![e] + "', found '"@ + seq![c] + "'"@,
        Fault::ExpectedEnd(e) => "expected '"@ + seq![e] + "', found end of input"@,
        Fault::EscapeAtEnd => "unexpected end of string escape"@,
        Fault::Unterminated => "unterminated string"@,
        Fault::ExpectedNumber => "expected number"@,
        Fault::InvalidInteger(t) => "invalid integer: "@ + t,
        Fault::UnexpectedIdentifier(t) => "unexpected identifier: "@ + t,
        Fault::UnexpectedChar(c) => "unexpected character: '"@ + seq![c] + "'"@,
        Fault::UnexpectedEnd => "unexpected end of input"@,
        Fault::IdentifierInTable(t) => "unexpected identifier in table: "@ + t,
        Fault::ExpectedKey => "expected table key or '}'"@,
        Fault::VariableNotFound(n) => "variable '"@ + n + "' not found in file"@,
        Fault::ExpectedString => "expected string"@,
        Fault::ExpectedQuote(c) => "expected quote, found '"@ + seq![c] + "'"@,
    }
}

// ------------------------------------------------------------------
// Two-character windows
//
// The reader compares the two characters at the current position with `--`,
// `[[` or `]]`, when at least two are left.
// ------------------------------------------------------------------

/// The characters `i` and `i + 1` are `a` and `b`.
pub open spec fn window_is(s: Seq<char>, i: int, a: char, b: char) -> bool {
    0 <= i && i + 1 < s.len() && s[i] == a && s[i + 1] == b
}

// ------------------------------------------------------------------
// White space and comments
// ------------------------------------------------------------------

pub open spec fn skip_white(s: Seq<char>, i: int) -> int
    decreases s.len() - i,
{
    if 0 <= i < s.len() && is_white(s[i]) {
        skip_white(s, i + 1)
    } else {
        i
    }
}

/// Past the next line break, or to the end.
pub open spec fn skip_line(s: Seq<char>, i: int) -> int
    decreases s.len() - i,
{
    if 0 <= i < s.len() {
        if s[i] == '\n' {
            i + 1
        } else {
            skip_line(s, i + 1)
        }
    } else {
        i
    }
}

/// Past the next `]]`; where none is left, up to the last character.
pub open spec fn skip_block(s: Seq<char>, i: int) -> int
    decreases s.len() - i,
{
    if 0 <= i && i + 1 < s.len() {
        if window_is(s, i, ']', ']') {
            i + 2
        } else {
            skip_block(s, i + 1)
        }
    } else {
        i
    }
}

pub proof fn lemma_skip_white(s: Seq<char>, i: int)
    requires
        0 <= i <= s.len(),
    ensures
        i <= skip_white(s, i) <= s.len(),
        forall|k: int| i <= k < skip_white(s, i) ==> is_white(#[trigger] s[k]),
        skip_white(s, i) < s.len() ==> !is_white(s[skip_white(s, i)]),
    decreases s.len() - i,
{
    if i < s.len() && is_white(s[i]) {
        lemma_skip_white(s, i + 1);
    }
}

pub proof fn lemma_skip_line(s: Seq<char>, i: int)
    requires
        0 <= i <= s.len(),
    ensures
        i <= skip_line(s, i) <= s.len(),
        i < s.len() ==> i < skip_line(s, i),
    decreases s.len() - i,
{
    if i < s.len() && s[i] != '\n' {
        lemma_skip_line(s, i + 1);
    }
}

pub proof fn lemma_skip_block(s: Seq<char>, i: int)
    requires
        0 <= i <= s.len(),
    ensures
        i <= skip_block(s, i) <= s.len(),
    decreases s.len() - i,
{
    if i + 1 < s.len() && !window_is(s, i, ']', ']') {
        lemma_skip_block(s, i + 1);
    }
}

/// Past white space and comments (`-- ...` to the end of the line, `--[[ ... ]]`);
/// `None` only for a position outside the text.
pub open spec fn skip_space(s: Seq<char>, i: int) -> Option<int>
    decreases s.len() - i,
{
    if 0 <= i <= s.len() {
        let j = skip_white(s, i);
        proof {
            lemma_skip_white(s, i);
        }
        if window_is(s, j, '-', '-') {
            if window_is(s, j + 2, '[', '[') {
                proof {
                    lemma_skip_block(s, j + 4);
                }
                skip_space(s, skip_block(s, j + 4))
            } else {
                proof {
                    lemma_skip_line(s, j);
                    lemma_skip_line(s, j + 1);
                }
                skip_space(s, skip_line(s, j))
            }
        } else {
            Some(j)
        }
    } else {
        None
    }
}

pub proof fn lemma_skip_space(s: Seq<char>, i: int)
    requires
        0 <= i <= s.len(),
    ensures
        skip_space(s, i) is Some,
        skip_space(s, i) matches Some(j) ==> i <= j <= s.len() && !(j < s.len() && is_white(
            s[j],
        )) && !window_is(s, j, '-', '-'),
    decreases s.len() - i,
{
    let j = skip_white(s, i);
    lemma_skip_white(s, i);
    if window_is(s, j, '-', '-') {
        if window_is(s, j + 2, '[', '[') {
            lemma_skip_block(s, j + 4);
            lemma_skip_space(s, skip_block(s, j + 4));
        } else {
            lemma_skip_line(s, j);
            lemma_skip_line(s, j + 1);
            lemma_skip_space(s, skip_line(s, j));
        }
    }
}

/// Past white space, then the character `c`.
pub open spec fn expect_at(s: Seq<char>, i: int, c: char) -> Scan<()> {
    match skip_space(s, i) {
        Some(j) => if j < s.len() {
            if s[j] == c {
                Scan::Done((), j + 1)
            } else {
                Scan::Fail(Fault::ExpectedFound(c, s[j]), j + 1)
            }
        } else {
            Scan::Fail(Fault::ExpectedEnd(c), j)
        },
        None => Scan::Abort,
    }
}

pub proof fn lemma_expect_at(s: Seq<char>, i: int, c: char)
    requires
        0 <= i <= s.len(),
    ensures
        expect_at(s, i, c) matches Scan::Done(_, j) ==> i < j <= s.len(),
{
    lemma_skip_space(s, i);
}

// ------------------------------------------------------------------
// Strings
// ------------------------------------------------------------------

/// What the escape `\e` stands for.
pub open spec fn escape_of(e: char) -> Seq<char> {
    if e == 'n' {
        seq!['\n']
    } else if e == 't' {
        seq!['\t']
    } else if e == '\\' {
        seq!['\\']
    } else if e == '"' {
        seq!['"']
    } else if e == '\'' {
        seq!['\'']
    } else if e == 'r' {
        seq!['\r']
    } else {
        seq!['\\', e]
    }
}

/// The rest of a string closed by `q`, from `i` on, after `acc` has been read.
pub open spec fn string_body(s: Seq<char>, i: int, q: char, acc: Seq<char>) -> Scan<Seq<char>>
    decreases s.len() - i,
{
    if 0 <= i < s.len() {
        if s[i] == q {
            Scan::Done(acc, i + 1)
        } else if s[i] == '\\' {
            if i + 1 < s.len() {
                string_body(s, i + 2, q, acc + escape_of(s[i + 1]))
            } else {
                Scan::Fail(Fault::EscapeAtEnd, i + 1)
            }
        } else {
            string_body(s, i + 1, q, acc.push(s[i]))
        }
    } else {
        Scan::Fail(Fault::Unterminated, i)
    }
}

/// A string opened by a quote (`"` or `'`) at `i`.
pub open spec fn string_at(s: Seq<char>, i: int) -> Scan<Seq<char>> {
    if !(0 <= i < s.len()) {
        Scan::Fail(Fault::ExpectedString, i)
    } else if s[i] != '"' && s[i] != '\'' {
        Scan::Fail(Fault::ExpectedQuote(s[i]), i + 1)
    } else {
        string_body(s, i + 1, s[i], seq![])
    }
}

pub proof fn lemma_string_body(s: Seq<char>, i: int, q: char, acc: Seq<char>)
    requires
        0 <= i <= s.len(),
    ensures
        string_body(s, i, q, acc) matches Scan::Done(_, j) ==> i < j <= s.len(),
    decreases s.len() - i,
{
    if i < s.len() && s[i] != q {
        if s[i] == '\\' {
            if i + 1 < s.len() {
                lemma_string_body(s, i + 2, q, acc + escape_of(s[i + 1]));
            }
        } else {
            lemma_string_body(s, i + 1, q, acc.push(s[i]));
        }
    }
}

// ------------------------------------------------------------------
// Numbers
// ------------------------------------------------------------------

/// A number read from the text: an integer, or the text of a decimal number.
pub enum NumLit {
    Int(i64),
    Float(Seq<char>),
}

/// End of the run of digits and at most one `.` (a second `.` ends it).
pub open spec fn number_end(s: Seq<char>, j: int, dot: bool) -> int
    decreases s.len() - j,
{
    if 0 <= j < s.len() && (is_digit(s[j]) || (s[j] == '.' && !dot)) {
        number_end(s, j + 1, dot || s[j] == '.')
    } else {
        j
    }
}

/// Where the digits of a number starting at `i` begin (after an optional `-`).
pub open spec fn number_start(s: Seq<char>, i: int) -> int {
    if 0 <= i < s.len() && s[i] == '-' {
        i + 1
    } else {
        i
    }
}

pub open spec fn has_digit(t: Seq<char>) -> bool {
    exists|k: int| 0 <= k < t.len() && is_digit(#[trigger] t[k])
}

pub open spec fn has_dot(t: Seq<char>) -> bool {
    exists|k: int| 0 <= k < t.len() && #[trigger] t[k] == '.'
}

/// A number starting at `i`.
pub open spec fn number_at(s: Seq<char>, i: int) -> Scan<NumLit> {
    let b = number_start(s, i);
    let e = number_end(s, b, false);
    let t = s.subrange(i, e);
    if !has_digit(s.subrange(b, e)) {
        Scan::Fail(Fault::ExpectedNumber, e)
    } else if has_dot(s.subrange(b, e)) {
        Scan::Done(NumLit::Float(t), e)
    } else {
        match parse_int_text(t) {
            Some(v) => Scan::Done(NumLit::Int(v), e),
            None => Scan::Fail(Fault::InvalidInteger(t), e),
        }
    }
}

pub proof fn lemma_number_end(s: Seq<char>, j: int, dot: bool)
    requires
        0 <= j <= s.len(),
    ensures
        j <= number_end(s, j, dot) <= s.len(),
    decreases s.len() - j,
{
    if j < s.len() && (is_digit(s[j]) || (s[j] == '.' && !dot)) {
        lemma_number_end(s, j + 1, dot || s[j] == '.');
    }
}

pub proof fn lemma_number_at(s: Seq<char>, i: int)
    requires
        0 <= i <= s.len(),
    ensures
        number_at(s, i) matches Scan::Done(_, j) ==> i < j <= s.len(),
{
    let b = number_start(s, i);
    lemma_number_end(s, b, false);
    let e = number_end(s, b, false);
    if has_digit(s.subrange(b, e)) {
        assert(b < e);
    }
}

/// `t` is a decimal literal with its `.` at `d`: an optional `-`, digits
/// with one `.` among them, and a digit on at least one side of the `.`.
pub open spec fn float_shape(t: Seq<char>, d: int) -> bool {
    let b: int = if t.len() > 0 && t[0] == '-' {
        1
    } else {
        0
    };
    &&& b <= d < t.len()
    &&& t[d] == '.'
    &&& forall|k: int| b <= k < t.len() && k != d ==> is_digit(#[trigger] t[k])
    &&& (b < d || d + 1 < t.len())
    &&& (t[0] == '-' || is_digit(t[0]))
}

/// `t` is a decimal literal.
pub open spec fn float_literal(t: Seq<char>) -> bool {
    exists|d: int| float_shape(t, d)
}

/// `t` is a decimal literal with at most 308 digits before its `.`: its value
/// is below 10^308, which is below the largest finite double.
pub open spec fn short_float_literal(t: Seq<char>) -> bool {
    exists|d: int| #[trigger] float_shape(t, d) && d - (if t[0] == '-' { 1int } else { 0int }) <= 308
}

/// What the JSON number for a decimal literal prints as, or `None` when the
/// literal denotes no finite number (it is then read as nil).
pub uninterp spec fn float_json_text(lit: Seq<char>) -> Option<Seq<char>>;

/// Trusted: reads the decimal literal `lit` with `str::parse` into a double (every
/// literal the reader passes here, an optional `-` and digits with one `.`, is
/// accepted; a text it refuses gives `None`) and makes a JSON number of it with
/// `serde_json::Number::from_f64`, which is what `json!` does with a double;
/// gives that number's text (`Number`'s `Display`), or `None` where `from_f64`
/// refuses a value that is not finite and `json!` would give `null`. The three
/// calls stand in one item because the double between them cannot be held in
/// verified code. Claimed: the result depends on `lit` alone,
/// and a literal below 10^308 gives a number: `str::parse` rounds to the nearest
/// double, which is then finite (10^308 is below `f64::MAX`), and `from_f64`
/// accepts every finite double.
#[verifier::external_body]
fn float_literal_json(lit: &str) -> (r: Option<String>)
    ensures
        match r {
            Some(t) => float_json_text(lit@) == Some(t@),
            None => float_json_text(lit@) is None,
        },
        short_float_literal(lit@) ==> r is Some,
{
    lit.parse().ok().and_then(serde_json::Number::from_f64).map(|n| n.to_string())
}

/// The value read for a decimal literal: a number where it names a finite
/// double (always so below 10^308), else nil.
pub open spec fn float_model(lit: Seq<char>) -> Model {
    if short_float_literal(lit) || float_json_text(lit) is Some {
        Model::Float(lit)
    } else {
        Model::Null
    }
}

/// The table key made from a decimal literal in brackets: the text of its
/// JSON number, or `null`.
pub open spec fn float_key(lit: Seq<char>) -> Seq<char> {
    match float_json_text(lit) {
        Some(t) => t,
        None => "null"@,
    }
}

// ------------------------------------------------------------------
// Identifiers
// ------------------------------------------------------------------

/// A character that starts an identifier: a letter (`char::is_alphabetic`).
pub open spec fn word_start(c: char) -> bool {
    if (c as u32) < 128 {
        is_letter(c)
    } else {
        alphabetic(c)
    }
}

/// A character that continues an identifier: a letter or digit
/// (`char::is_alphanumeric`).
pub open spec fn word_char(c: char) -> bool {
    if (c as u32) < 128 {
        is_letter(c) || is_digit(c)
    } else {
        alphanumeric(c)
    }
}

pub open spec fn ident_end(s: Seq<char>, j: int) -> int
    decreases s.len() - j,
{
    if 0 <= j < s.len() && (word_char(s[j]) || s[j] == '_') {
        ident_end(s, j + 1)
    } else {
        j
    }
}

pub proof fn lemma_ident_end(s: Seq<char>, j: int)
    requires
        0 <= j <= s.len(),
    ensures
        j <= ident_end(s, j) <= s.len(),
        j < s.len() && (word_char(s[j]) || s[j] == '_') ==> j < ident_end(s, j),
    decreases s.len() - j,
{
    if j < s.len() && (word_char(s[j]) || s[j] == '_') {
        lemma_ident_end(s, j + 1);
    }
}

pub open spec fn word_true() -> Seq<char> {
    seq!['t', 'r', 'u', 'e']
}

pub open spec fn word_false() -> Seq<char> {
    seq!['f', 'a', 'l', 's', 'e']
}

pub open spec fn word_nil() -> Seq<char> {
    seq!['n', 'i', 'l']
}

/// The value a keyword stands for.
pub open spec fn keyword_value(t: Seq<char>) -> Option<Model> {
    if t == word_true() {
        Some(Model::Bool(true))
    } else if t == word_false() {
        Some(Model::Bool(false))
    } else if t == word_nil() {
        Some(Model::Null)
    } else {
        None
    }
}

// ------------------------------------------------------------------
// Tables
// ------------------------------------------------------------------

/// The key of a table entry: a name, an integer, or none (the next array index).
pub enum TKey {
    Name(Seq<char>),
    Index(i64),
    Next,
}

/// What has been read of a table: its entries keyed by text, its integer-keyed
/// entries in order, whether every key was an integer, and the next array index.
pub struct TState {
    pub map: Seq<(Seq<char>, Model)>,
    pub ents: Seq<(i64, Model)>,
    pub pure: bool,
    pub auto: i64,
}

pub open spec fn table_start() -> TState {
    TState { map: seq![], ents: seq![], pure: true, auto: 1 }
}

/// Records an entry; `None` when the next array index would overflow.
pub open spec fn table_add(st: TState, key: TKey, v: Model) -> Option<TState> {
    match key {
        TKey::Name(t) => Some(
            TState { map: obj_insert(st.map, t, v), ents: st.ents, pure: false, auto: st.auto },
        ),
        TKey::Index(k) => if k >= st.auto && k == i64::MAX {
            None
        } else {
            Some(
                TState {
                    map: obj_insert(st.map, int_decimal(k as int), v),
                    ents: st.ents.push((k, v)),
                    pure: st.pure,
                    auto: if k >= st.auto {
                        (k + 1) as i64
                    } else {
                        st.auto
                    },
                },
            )
        },
        TKey::Next => if st.auto == i64::MAX {
            None
        } else {
            Some(
                TState {
                    map: obj_insert(st.map, int_decimal(st.auto as int), v),
                    ents: st.ents.push((st.auto, v)),
                    pure: st.pure,
                    auto: (st.auto + 1) as i64,
                },
            )
        },
    }
}

/// The integer keys are exactly `1..=n`, each once.
pub open spec fn keys_are_positions(ents: Seq<(i64, Model)>) -> bool {
    let n = ents.len();
    &&& n > 0
    &&& forall|q: int| 0 <= q < n ==> 1 <= #[trigger] ents[q].0 <= n
    &&& forall|q1: int, q2: int|
        0 <= q1 < q2 < n ==> #[trigger] ents[q1].0 != #[trigger] ents[q2].0
    &&& forall|p: int| 1 <= p <= n ==> #[trigger] key_present(ents, p)
}

/// Some entry has integer key `p`.
pub open spec fn key_present(ents: Seq<(i64, Model)>, p: int) -> bool {
    exists|q: int| 0 <= q < ents.len() && #[trigger] ents[q].0 == p
}

/// Index of the first entry with integer key `k`, searching from `q`.
pub open spec fn ent_index(ents: Seq<(i64, Model)>, k: int, q: int) -> int
    decreases ents.len() - q,
{
    if q < 0 || q >= ents.len() {
        ents.len() as int
    } else if ents[q].0 == k {
        q
    } else {
        ent_index(ents, k, q + 1)
    }
}

/// The array whose element `p` is the entry with key `p + 1`.
pub open spec fn entries_array(ents: Seq<(i64, Model)>) -> Seq<Model> {
    Seq::new(ents.len(), |p: int| ents[ent_index(ents, p + 1, 0)].1)
}

/// A finished table: an array when every key is an integer and the keys are
/// `1..=n`, a table otherwise.
pub open spec fn table_finish(st: TState) -> Model {
    if st.pure && keys_are_positions(st.ents) {
        Model::Array(entries_array(st.ents))
    } else {
        Model::Object(st.map)
    }
}

// ------------------------------------------------------------------
// Values
// ------------------------------------------------------------------

/// A value from `i` on.
pub open spec fn value_at(s: Seq<char>, i: int) -> Scan<Model>
    decreases s.len() - i, 2int,
{
    if 0 <= i <= s.len() {
        proof {
            lemma_skip_space(s, i);
        }
        match skip_space(s, i) {
            Some(j) => if j >= s.len() {
                Scan::Fail(Fault::UnexpectedEnd, j)
            } else {
                let c = s[j];
                if c == '{' {
                    table_at(s, j)
                } else if c == '"' || c == '\'' {
                    match string_at(s, j) {
                        Scan::Done(t, k) => Scan::Done(Model::Str(t), k),
                        Scan::Fail(f, p) => Scan::Fail(f, p),
                        Scan::Abort => Scan::Abort,
                    }
                } else if is_digit(c) || c == '-' {
                    match number_at(s, j) {
                        Scan::Done(NumLit::Int(v), k) => Scan::Done(Model::Int(v), k),
                        Scan::Done(NumLit::Float(t), k) => Scan::Done(float_model(t), k),
                        Scan::Fail(f, p) => Scan::Fail(f, p),
                        Scan::Abort => Scan::Abort,
                    }
                } else if word_start(c) || c == '_' {
                    let e = ident_end(s, j);
                    let t = s.subrange(j, e);
                    match keyword_value(t) {
                        Some(m) => Scan::Done(m, e),
                        None => Scan::Fail(Fault::UnexpectedIdentifier(t), e),
                    }
                } else {
                    Scan::Fail(Fault::UnexpectedChar(c), j)
                }
            },
            None => Scan::Abort,
        }
    } else {
        Scan::Abort
    }
}

/// A table opened by `{` at `i` (after white space).
pub open spec fn table_at(s: Seq<char>, i: int) -> Scan<Model>
    decreases s.len() - i, 1int,
{
    if 0 <= i <= s.len() {
        proof {
            lemma_expect_at(s, i, '{');
        }
        match expect_at(s, i, '{') {
            Scan::Done(_, j) => table_loop(s, j, table_start()),
            Scan::Fail(f, p) => Scan::Fail(f, p),
            Scan::Abort => Scan::Abort,
        }
    } else {
        Scan::Abort
    }
}

/// The entries of a table from `i` on, after `st` has been read.
pub open spec fn table_loop(s: Seq<char>, i: int, st: TState) -> Scan<Model>
    decreases s.len() - i, 5int,
{
    if 0 <= i <= s.len() {
        proof {
            lemma_skip_space(s, i);
        }
        match skip_space(s, i) {
            Some(j) => if j < s.len() && s[j] == '}' {
                Scan::Done(table_finish(st), j + 1)
            } else {
                match entry_at(s, j) {
                    Scan::Done((key, v), k) => match table_add(st, key, v) {
                        Some(st2) => if 0 <= k <= s.len() {
                            proof {
                                lemma_skip_space(s, k);
                            }
                            match skip_space(s, k) {
                                Some(m) => {
                                    let n = if m < s.len() && (s[m] == ',' || s[m] == ';') {
                                        m + 1
                                    } else {
                                        m
                                    };
                                    if n > i {
                                        table_loop(s, n, st2)
                                    } else {
                                        Scan::Fail(Fault::ExpectedKey, n)
                                    }
                                },
                                None => Scan::Abort,
                            }
                        } else {
                            Scan::Abort
                        },
                        None => Scan::Abort,
                    },
                    Scan::Fail(f, p) => Scan::Fail(f, p),
                    Scan::Abort => Scan::Abort,
                }
            },
            None => Scan::Abort,
        }
    } else {
        Scan::Abort
    }
}

/// The key of an entry in brackets, from `k` on.
pub open spec fn bracket_key_at(s: Seq<char>, k: int) -> Scan<TKey> {
    if 0 <= k < s.len() && (s[k] == '"' || s[k] == '\'') {
        match string_at(s, k) {
            Scan::Done(t, m) => Scan::Done(TKey::Name(t), m),
            Scan::Fail(f, p) => Scan::Fail(f, p),
            Scan::Abort => Scan::Abort,
        }
    } else {
        match number_at(s, k) {
            Scan::Done(NumLit::Int(v), m) => Scan::Done(TKey::Index(v), m),
            Scan::Done(NumLit::Float(t), m) => Scan::Done(TKey::Name(float_key(t)), m),
            Scan::Fail(f, p) => Scan::Fail(f, p),
            Scan::Abort => Scan::Abort,
        }
    }
}

pub proof fn lemma_bracket_key_at(s: Seq<char>, k: int)
    requires
        0 <= k <= s.len(),
    ensures
        bracket_key_at(s, k) matches Scan::Done(_, m) ==> k < m <= s.len(),
{
    if 0 <= k < s.len() && (s[k] == '"' || s[k] == '\'') {
        lemma_string_body(s, k + 1, s[k], seq![]);
    } else {
        lemma_number_at(s, k);
    }
}

/// An entry `[key] = value` whose `[` is at `j`.
pub open spec fn bracket_entry_at(s: Seq<char>, j: int) -> Scan<(TKey, Model)>
    decreases s.len() - j, 3int,
{
    if 0 <= j < s.len() {
        proof {
            lemma_skip_space(s, j + 1);
        }
        match skip_space(s, j + 1) {
            Some(k) => {
                proof {
                    lemma_bracket_key_at(s, k);
                }
                match bracket_key_at(s, k) {
                    Scan::Done(key, k2) => {
                        proof {
                            lemma_expect_at(s, k2, ']');
                        }
                        match expect_at(s, k2, ']') {
                            Scan::Done(_, k3) => {
                                proof {
                                    lemma_skip_space(s, k3);
                                }
                                match skip_space(s, k3) {
                                    Some(k4) => {
                                        proof {
                                            lemma_expect_at(s, k4, '=');
                                        }
                                        match expect_at(s, k4, '=') {
                                            Scan::Done(_, k5) => match value_at(s, k5) {
                                                Scan::Done(v, k6) => Scan::Done((key, v), k6),
                                                Scan::Fail(f, p) => Scan::Fail(f, p),
                                                Scan::Abort => Scan::Abort,
                                            },
                                            Scan::Fail(f, p) => Scan::Fail(f, p),
                                            Scan::Abort => Scan::Abort,
                                        }
                                    },
                                    None => Scan::Abort,
                                }
                            },
                            Scan::Fail(f, p) => Scan::Fail(f, p),
                            Scan::Abort => Scan::Abort,
                        }
                    },
                    Scan::Fail(f, p) => Scan::Fail(f, p),
                    Scan::Abort => Scan::Abort,
                }
            },
            None => Scan::Abort,
        }
    } else {
        Scan::Abort
    }
}

/// An entry `name = value`, or a bare keyword, whose identifier starts at `j`.
pub open spec fn named_entry_at(s: Seq<char>, j: int) -> Scan<(TKey, Model)>
    decreases s.len() - j, 3int,
{
    if 0 <= j < s.len() {
        let e = ident_end(s, j);
        let t = s.subrange(j, e);
        proof {
            lemma_ident_end(s, j);
            lemma_skip_space(s, e);
        }
        match skip_space(s, e) {
            Some(k) => if k < s.len() && s[k] == '=' {
                match value_at(s, k + 1) {
                    Scan::Done(v, m) => Scan::Done((TKey::Name(t), v), m),
                    Scan::Fail(f, p) => Scan::Fail(f, p),
                    Scan::Abort => Scan::Abort,
                }
            } else {
                match keyword_value(t) {
                    Some(m) => Scan::Done((TKey::Index(1), m), k),
                    None => Scan::Fail(Fault::IdentifierInTable(t), j),
                }
            },
            None => Scan::Abort,
        }
    } else {
        Scan::Abort
    }
}

/// One entry of a table from `i` on: `[key] = value`, `name = value`, or a value.
pub open spec fn entry_at(s: Seq<char>, i: int) -> Scan<(TKey, Model)>
    decreases s.len() - i, 4int,
{
    if 0 <= i <= s.len() {
        proof {
            lemma_skip_space(s, i);
        }
        match skip_space(s, i) {
            Some(j) => if j < s.len() && s[j] == '[' {
                bracket_entry_at(s, j)
            } else if j < s.len() && (word_start(s[j]) || s[j] == '_') {
                named_entry_at(s, j)
            } else if j < s.len() && (s[j] == '{' || s[j] == '"' || s[j] == '\'' || is_digit(s[j])
                || s[j] == '-') {
                match value_at(s, j) {
                    Scan::Done(v, m) => Scan::Done((TKey::Next, v), m),
                    Scan::Fail(f, p) => Scan::Fail(f, p),
                    Scan::Abort => Scan::Abort,
                }
            } else {
                Scan::Fail(Fault::ExpectedKey, j)
            },
            None => Scan::Abort,
        }
    } else {
        Scan::Abort
    }
}

// ------------------------------------------------------------------
// Saved variables
// ------------------------------------------------------------------

/// The text searched for to find a variable: `Name = `.
pub open spec fn assignment_of(name: Seq<char>) -> Seq<char> {
    name + " = "@
}

/// A character that may be part of a name.
pub open spec fn name_char(c: char) -> bool {
    word_char(c) || c == '_'
}

/// `Name = ` stands at `p`, and not as the end of a longer name.
pub open spec fn assignment_at(input: Seq<char>, name: Seq<char>, p: int) -> bool {
    occurs_at(input, assignment_of(name), p) && (p == 0 || !name_char(input[p - 1]))
}

/// The first position at or after `i` where `Name = ` stands.
pub open spec fn find_assignment(input: Seq<char>, name: Seq<char>, i: int) -> Option<int>
    decreases input.len() + 1 - i,
{
    if i < 0 || i + assignment_of(name).len() > input.len() {
        None
    } else if assignment_at(input, name, i) {
        Some(i)
    } else {
        find_assignment(input, name, i + 1)
    }
}

/// Where the value of variable `name` starts in `input`.
pub open spec fn value_start(input: Seq<char>, name: Seq<char>) -> Option<int> {
    match find_assignment(input, name, 0) {
        Some(p) => Some(p + assignment_of(name).len()),
        None => None,
    }
}

/// Reading variable `name` from a SavedVariables file: the first `Name = `
/// that is not the end of a longer name is found, and one value is read
/// after it. A failure carries the byte offset,
/// into the text after `Name = `, where it is reported.
pub open spec fn read_saved_variable(input: Seq<char>, name: Seq<char>) -> Scan<Model> {
    match value_start(input, name) {
        None => Scan::Fail(Fault::VariableNotFound(name), 0),
        Some(b) => {
            let rest = input.skip(b);
            match value_at(rest, 0) {
                Scan::Done(m, k) => Scan::Done(m, k),
                Scan::Fail(f, at) => Scan::Fail(f, byte_offset(rest, at) as int),
                Scan::Abort => Scan::Abort,
            }
        },
    }
}

} // verus!

verus! {

// ------------------------------------------------------------------
// The reader
// ------------------------------------------------------------------

/// A reading error: its message and the byte offset, into the text after
/// `Name = `, where it was noticed.
#[derive(Debug)]
pub struct ParseError {
    pub message: String,
    pub position: usize,
}

/// `Parse error at position {at}: {message}`.
pub open spec fn parse_error_text(message: Seq<char>, at: int) -> Seq<char> {
    "Parse error at position "@ + nat_decimal(at as nat) + ": "@ + message
}

impl ParseError {
    /// `Parse error at position {position}: {message}`.
    pub fn describe(&self) -> (r: String)
        ensures
            r@ == parse_error_text(self.message@, self.position as int),
    {
        let mut r = String::new();
        push_str(&mut r, "Parse error at position ");
        push_u64_decimal_usize(&mut r, self.position);
        push_str(&mut r, ": ");
        push_str(&mut r, self.message.as_str());
        assert(r@ =~= "Parse error at position "@ + nat_decimal(self.position as nat) + ": "@
            + self.message@);
        r
    }
}

fn push_u64_decimal_usize(out: &mut String, n: usize)
    ensures
        final(out)@ == old(out)@ + nat_decimal(n as nat),
{
    let t = u64_to_string(n as u64);
    push_str(out, t.as_str());
}

/// Why the reader stopped: an error, or an abnormal stop (where a table's
/// next array index would count past the largest integer).
pub enum Halt {
    Fail(ParseError),
    Abort,
}

pub open spec fn fails_with(h: Halt, s: Seq<char>, f: Fault, at: int) -> bool {
    h matches Halt::Fail(e) && e.message@ == fault_message(f) && e.position == byte_offset(s, at)
}

/// A key as read.
enum Key {
    Name(String),
    Index(i64),
    Next,
}

spec fn key_model(k: Key) -> TKey {
    match k {
        Key::Name(t) => TKey::Name(t@),
        Key::Index(i) => TKey::Index(i),
        Key::Next => TKey::Next,
    }
}

/// A number as read.
enum Num {
    Int(i64),
    Float(String),
}

spec fn num_model(n: Num) -> NumLit {
    match n {
        Num::Int(i) => NumLit::Int(i),
        Num::Float(t) => NumLit::Float(t@),
    }
}

spec fn ents_model(e: Seq<(i64, Value)>) -> Seq<(i64, Model)> {
    Seq::new(e.len(), |q: int| (e[q].0, e[q].1.model()))
}

fn message_expected(e: char, found: Option<char>) -> (m: String)
    ensures
        found matches Some(c) ==> m@ == fault_message(Fault::ExpectedFound(e, c)),
        found is None ==> m@ == fault_message(Fault::ExpectedEnd(e)),
{
    let mut m = String::new();
    push_str(&mut m, "expected '");
    push_char(&mut m, e);
    match found {
        Some(c) => {
            push_str(&mut m, "', found '");
            push_char(&mut m, c);
            push_str(&mut m, "'");
            assert(m@ =~= fault_message(Fault::ExpectedFound(e, c)));
        },
        None => {
            push_str(&mut m, "', found end of input");
            assert(m@ =~= fault_message(Fault::ExpectedEnd(e)));
        },
    }
    m
}

fn message_with_text(prefix: &str, t: &str) -> (m: String)
    ensures
        m@ == prefix@ + t@,
{
    let mut m = String::new();
    push_str(&mut m, prefix);
    push_str(&mut m, t);
    assert(m@ =~= prefix@ + t@);
    m
}

fn message_of(t: &str) -> (m: String)
    ensures
        m@ == t@,
{
    let mut m = String::new();
    push_str(&mut m, t);
    assert(m@ =~= t@);
    m
}

fn message_unexpected_char(c: char) -> (m: String)
    ensures
        m@ == fault_message(Fault::UnexpectedChar(c)),
{
    let mut m = String::new();
    push_str(&mut m, "unexpected character: '");
    push_char(&mut m, c);
    push_str(&mut m, "'");
    assert(m@ =~= fault_message(Fault::UnexpectedChar(c)));
    m
}

fn message_expected_quote(c: char) -> (m: String)
    ensures
        m@ == fault_message(Fault::ExpectedQuote(c)),
{
    let mut m = String::new();
    push_str(&mut m, "expected quote, found '");
    push_char(&mut m, c);
    push_str(&mut m, "'");
    assert(m@ =~= fault_message(Fault::ExpectedQuote(c)));
    m
}

/// Appends what the escape `\e` stands for.
fn push_escape(out: &mut String, e: char)
    ensures
        final(out)@ == old(out)@ + escape_of(e),
{
    let ghost o = old(out)@;
    if e == 'n' {
        push_char(out, '\n');
    } else if e == 't' {
        push_char(out, '\t');
    } else if e == '\\' {
        push_char(out, '\\');
    } else if e == '"' {
        push_char(out, '"');
    } else if e == '\'' {
        push_char(out, '\'');
    } else if e == 'r' {
        push_char(out, '\r');
    } else {
        push_char(out, '\\');
        push_char(out, e);
    }
    assert(out@ =~= o + escape_of(e));
}

fn window_is_at(v: &Vec<char>, i: usize, a: char, b: char) -> (r: bool)
    ensures
        r == window_is(v@, i as int, a, b),
{
    i < v.len() && i + 1 < v.len() && v[i] == a && v[i + 1] == b
}

/// A reader over the characters of a text.
pub struct Parser {
    /// The text's characters.
    pub chars: Vec<char>,
    /// How many of them have been read.
    pub idx: usize,
    /// The byte offset of the next one.
    pub pos: usize,
}

impl Parser {
    /// `pos` is the byte offset of `idx`, and every offset fits in `usize`.
    pub open spec fn inv(&self) -> bool {
        &&& self.idx <= self.chars.len()
        &&& self.pos == byte_offset(self.chars@, self.idx as int)
        &&& byte_offset(self.chars@, self.chars.len() as int) <= usize::MAX
    }

    /// A reader at the start of `input`.
    pub fn new(input: &str) -> (p: Parser)
        ensures
            p.inv(),
            p.chars@ == input@,
            p.idx == 0,
    {
        let chars = chars_of(input);
        let n = input.as_bytes().len();
        proof {
            assert(input@.take(input@.len() as int) =~= input@);
            assert(input@.take(0) =~= Seq::<char>::empty());
            assert(encode_utf8(Seq::<char>::empty()) =~= Seq::<u8>::empty());
        }
        Parser { chars, idx: 0, pos: 0 }
    }

    /// An error with `msg`, at the current byte offset.
    pub fn error(&self, msg: &str) -> (e: ParseError)
        ensures
            e.message@ == msg@,
            e.position == self.pos,
    {
        ParseError { message: msg.to_owned(), position: self.pos }
    }

    fn fail(&self, message: String) -> (h: Halt)
        ensures
            h matches Halt::Fail(e) && e.message@ == message@ && e.position == self.pos,
    {
        Halt::Fail(self.error(message.as_str()))
    }

    /// The next character, if any.
    pub fn peek(&self) -> (r: Option<char>)
        requires
            self.inv(),
        ensures
            self.idx < self.chars.len() ==> r == Some(self.chars@[self.idx as int]),
            self.idx >= self.chars.len() ==> r is None,
    {
        if self.idx < self.chars.len() {
            Some(self.chars[self.idx])
        } else {
            None
        }
    }

    /// Reads the next character, if any.
    pub fn advance(&mut self) -> (r: Option<char>)
        requires
            old(self).inv(),
        ensures
            final(self).inv(),
            final(self).chars == old(self).chars,
            old(self).idx < old(self).chars.len() ==> r == Some(
                old(self).chars@[old(self).idx as int],
            ) && final(self).idx == old(self).idx + 1,
            old(self).idx >= old(self).chars.len() ==> r is None && final(self).idx == old(
                self,
            ).idx,
    {
        if self.idx < self.chars.len() {
            let c = self.chars[self.idx];
            proof {
                lemma_byte_offset_step(self.chars@, self.idx as int);
                lemma_byte_offset_mono(self.chars@, self.idx + 1, self.chars.len() as int);
            }
            self.pos = self.pos + char_width(c);
            self.idx = self.idx + 1;
            Some(c)
        } else {
            None
        }
    }

    /// Past the next line break, or to the end.
    fn skip_line_comment(&mut self)
        requires
            old(self).inv(),
        ensures
            final(self).inv(),
            final(self).chars == old(self).chars,
            final(self).idx == skip_line(old(self).chars@, old(self).idx as int),
    {
        let ghost s = self.chars@;
        let ghost start = self.idx as int;
        loop
            invariant
                self.inv(),
                self.chars@ == s,
                self.chars == old(self).chars,
                s == old(self).chars@,
                start == old(self).idx as int,
                skip_line(s, start) == skip_line(s, self.idx as int),
            decreases s.len() - self.idx,
        {
            match self.advance() {
                Some(c) => {
                    if c == '\n' {
                        return ;
                    }
                },
                None => {
                    return ;
                },
            }
        }
    }

    /// Past the next `]]`; where none is left, up to the last character.
    fn skip_block_comment(&mut self)
        requires
            old(self).inv(),
        ensures
            final(self).inv(),
            final(self).chars == old(self).chars,
            final(self).idx == skip_block(old(self).chars@, old(self).idx as int),
    {
        let ghost s = self.chars@;
        let ghost start = self.idx as int;
        loop
            invariant
                self.inv(),
                self.chars@ == s,
                self.chars == old(self).chars,
                s == old(self).chars@,
                start == old(self).idx as int,
                skip_block(s, start) == skip_block(s, self.idx as int),
                start <= self.idx,
            decreases s.len() - self.idx,
        {
            if self.chars.len() - self.idx < 2 {
                return;
            }
            if window_is_at(&self.chars, self.idx, ']', ']') {
                self.advance();
                self.advance();
                return;
            }
            self.advance();
        }
    }

    /// Past white space and comments.
    pub fn skip_whitespace_and_comments(&mut self)
        requires
            old(self).inv(),
        ensures
            final(self).inv(),
            final(self).chars == old(self).chars,
            old(self).idx <= final(self).idx,
            skip_space(old(self).chars@, old(self).idx as int) == Some(final(self).idx as int),
            final(self).idx < final(self).chars.len() ==> !is_white(
                final(self).chars@[final(self).idx as int],
            ),
            !window_is(final(self).chars@, final(self).idx as int, '-', '-'),
    {
        let ghost s = self.chars@;
        let ghost start = self.idx as int;
        loop
            invariant
                self.inv(),
                self.chars@ == s,
                self.chars == old(self).chars,
                s == old(self).chars@,
                start == old(self).idx as int,
                start <= self.idx,
                skip_space(s, start) == skip_space(s, self.idx as int),
            decreases s.len() - self.idx,
        {
            let ghost i0 = self.idx as int;
            while self.idx < self.chars.len() && is_whitespace(self.chars[self.idx])
                invariant
                    self.inv(),
                    self.chars@ == s,
                    self.chars == old(self).chars,
                    start <= i0 <= self.idx,
                    skip_white(s, i0) == skip_white(s, self.idx as int),
                decreases s.len() - self.idx,
            {
                self.advance();
            }
            let j = self.idx;
            assert(skip_white(s, i0) == j);
            if !window_is_at(&self.chars, j, '-', '-') {
                return;
            }
            if window_is_at(&self.chars, j + 2, '[', '[') {
                self.advance();
                self.advance();
                self.advance();
                self.advance();
                self.skip_block_comment();
                proof {
                    lemma_skip_block(s, j + 4);
                }
            } else {
                self.skip_line_comment();
                proof {
                    lemma_skip_line(s, j as int);
                    lemma_skip_line(s, j + 1);
                }
            }
        }
    }
}

} // verus!

verus! {

impl Parser {
    /// Past white space, then the character `expected`.
    pub fn expect(&mut self, expected: char) -> (r: Result<(), Halt>)
        requires
            old(self).inv(),
        ensures
            final(self).inv(),
            final(self).chars == old(self).chars,
            old(self).idx <= final(self).idx,
            match expect_at(old(self).chars@, old(self).idx as int, expected) {
                Scan::Done(_, j) => r is Ok && final(self).idx == j,
                Scan::Fail(f, at) => r matches Err(h) && fails_with(h, old(self).chars@, f, at),
                Scan::Abort => r matches Err(Halt::Abort),
            },
    {
        self.skip_whitespace_and_comments();
        match self.advance() {
            Some(c) => {
                if c == expected {
                    Ok(())
                } else {
                    Err(self.fail(message_expected(expected, Some(c))))
                }
            },
            None => Err(self.fail(message_expected(expected, None))),
        }
    }

    /// A string: a quote (`"` or `'`), the characters up to the same quote with
    /// backslash escapes, and that quote.
    pub fn parse_string(&mut self) -> (r: Result<String, Halt>)
        requires
            old(self).inv(),
        ensures
            final(self).inv(),
            final(self).chars == old(self).chars,
            old(self).idx <= final(self).idx,
            match string_at(old(self).chars@, old(self).idx as int) {
                Scan::Done(t, j) => r matches Ok(v) && v@ == t && final(self).idx == j,
                Scan::Fail(f, at) => r matches Err(h) && fails_with(h, old(self).chars@, f, at),
                Scan::Abort => false,
            },
    {
        let ghost s = self.chars@;
        let ghost start = self.idx as int;
        let quote = match self.advance() {
            Some(q) => q,
            None => {
                return Err(self.fail(message_of("expected string")));
            },
        };
        if quote != '"' && quote != '\'' {
            return Err(self.fail(message_expected_quote(quote)));
        }
        let mut result = String::new();
        loop
            invariant
                self.inv(),
                self.chars == old(self).chars,
                s == old(self).chars@,
                start == old(self).idx as int,
                start < self.idx,
                quote == s[start],
                string_at(s, start) == string_body(s, self.idx as int, quote, result@),
            decreases s.len() - self.idx,
        {
            match self.advance() {
                Some(c) => {
                    if c == quote {
                        return Ok(result);
                    } else if c == '\\' {
                        match self.advance() {
                            Some(e) => {
                                push_escape(&mut result, e);
                            },
                            None => {
                                return Err(self.fail(message_of("unexpected end of string escape")));
                            },
                        }
                    } else {
                        push_char(&mut result, c);
                    }
                },
                None => {
                    return Err(self.fail(message_of("unterminated string")));
                },
            }
        }
    }

    /// A number: an optional `-`, then digits with at most one `.`.
    fn parse_number(&mut self) -> (r: Result<Num, Halt>)
        requires
            old(self).inv(),
        ensures
            final(self).inv(),
            final(self).chars == old(self).chars,
            old(self).idx <= final(self).idx,
            match number_at(old(self).chars@, old(self).idx as int) {
                Scan::Done(n, j) => r matches Ok(v) && num_model(v) == n && final(self).idx == j,
                Scan::Fail(f, at) => r matches Err(h) && fails_with(h, old(self).chars@, f, at),
                Scan::Abort => false,
            },
    {
        let ghost s = self.chars@;
        let start = self.idx;
        if self.idx < self.chars.len() && self.chars[self.idx] == '-' {
            self.advance();
        }
        let b = self.idx;
        assert(b == number_start(s, start as int));
        let mut dot = false;
        let mut digits = false;
        while self.idx < self.chars.len() && (is_ascii_digit(self.chars[self.idx]) || (
        self.chars[self.idx] == '.' && !dot))
            invariant
                self.inv(),
                self.chars == old(self).chars,
                s == old(self).chars@,
                start == old(self).idx,
                b == number_start(s, start as int),
                start <= b <= self.idx,
                number_end(s, b as int, false) == number_end(s, self.idx as int, dot),
                dot == has_dot(s.subrange(b as int, self.idx as int)),
                digits == has_digit(s.subrange(b as int, self.idx as int)),
                forall|k: int| b <= k < self.idx ==> is_digit(#[trigger] s[k]) || s[k] == '.',
                forall|k: int| start <= k < b ==> s[k] == '-',
            decreases s.len() - self.idx,
        {
            let c = self.chars[self.idx];
            let ghost sub = s.subrange(b as int, self.idx as int);
            assert(s.subrange(b as int, self.idx + 1) =~= sub.push(c));
            if c == '.' {
                dot = true;
                assert(s.subrange(b as int, self.idx + 1)[sub.len() as int] == '.');
            } else {
                digits = true;
                assert(is_digit(s.subrange(b as int, self.idx + 1)[sub.len() as int]));
            }
            proof {
                let nsub = s.subrange(b as int, self.idx + 1);
                if has_digit(sub) {
                    let k = choose|k: int| 0 <= k < sub.len() && is_digit(#[trigger] sub[k]);
                    assert(nsub[k] == sub[k]);
                }
                if has_digit(nsub) && !is_digit(c) {
                    let k = choose|k: int| 0 <= k < nsub.len() && is_digit(#[trigger] nsub[k]);
                    assert(sub[k] == nsub[k]);
                }
                if has_dot(sub) {
                    let k = choose|k: int| 0 <= k < sub.len() && #[trigger] sub[k] == '.';
                    assert(nsub[k] == sub[k]);
                }
                if has_dot(nsub) && c != '.' {
                    let k = choose|k: int| 0 <= k < nsub.len() && #[trigger] nsub[k] == '.';
                    assert(sub[k] == nsub[k]);
                }
            }
            self.advance();
        }
        let e = self.idx;
        assert(number_end(s, e as int, dot) == e);
        if !digits {
            return Err(self.fail(message_of("expected number")));
        }
        let text = string_of(&self.chars, start, e);
        if dot {
            return Ok(Num::Float(text));
        }
        assert forall|k: int| start <= k < e implies is_digit(#[trigger] self.chars@[k]) || (k
            == start && self.chars@[k] == '-') by {
            if k >= b {
                if !is_digit(s[k]) {
                    assert(s.subrange(b as int, e as int)[k - b] == '.');
                }
            }
        }
        match parse_i64_chars(&self.chars, start, e) {
            Some(v) => Ok(Num::Int(v)),
            None => Err(self.fail(message_with_text("invalid integer: ", text.as_str()))),
        }
    }

    /// An identifier: the run of letters, digits and `_` at the current
    /// character (it may start with a digit). Where that run is empty, the
    /// error "expected identifier" at the current offset, nothing read.
    pub fn parse_identifier(&mut self) -> (r: Result<String, ParseError>)
        requires
            old(self).inv(),
        ensures
            final(self).inv(),
            final(self).chars == old(self).chars,
            final(self).idx == ident_end(old(self).chars@, old(self).idx as int),
            final(self).idx == old(self).idx ==> (r matches Err(e) && e.message@
                == "expected identifier"@ && e.position == old(self).pos),
            final(self).idx != old(self).idx ==> (r matches Ok(t) && t@ == old(
                self,
            ).chars@.subrange(old(self).idx as int, final(self).idx as int)),
            old(self).idx < old(self).chars.len() && (word_start(
                old(self).chars@[old(self).idx as int],
            ) || old(self).chars@[old(self).idx as int] == '_') ==> r is Ok,
    {
        let ghost s = self.chars@;
        let start = self.idx;
        while self.idx < self.chars.len() && (is_alphanumeric(self.chars[self.idx])
            || self.chars[self.idx] == '_')
            invariant
                self.inv(),
                self.chars == old(self).chars,
                s == old(self).chars@,
                start == old(self).idx,
                start <= self.idx,
                ident_end(s, start as int) == ident_end(s, self.idx as int),
            decreases s.len() - self.idx,
        {
            self.advance();
        }
        if self.idx == start {
            return Err(self.error("expected identifier"));
        }
        Ok(string_of(&self.chars, start, self.idx))
    }
}

/// The value of a keyword (`true`, `false`, `nil`).
fn keyword(t: &str) -> (r: Option<Value>)
    ensures
        match keyword_value(t@) {
            Some(m) => r matches Some(v) && v.model() == m,
            None => r is None,
        },
{
    proof {
        reveal_strlit("true");
        reveal_strlit("false");
        reveal_strlit("nil");
    }
    if str_eq(t, "true") {
        assert("true"@ =~= word_true());
        Some(Value::Bool(true))
    } else if str_eq(t, "false") {
        assert("false"@ =~= word_false());
        assert(t@ != word_true());
        Some(Value::Bool(false))
    } else if str_eq(t, "nil") {
        assert("nil"@ =~= word_nil());
        assert(t@ != word_true());
        assert(t@ != word_false());
        Some(Value::Null)
    } else {
        assert("true"@ =~= word_true());
        assert("false"@ =~= word_false());
        assert("nil"@ =~= word_nil());
        None
    }
}

} // verus!

verus! {

spec fn value_done(r: Result<Value, Halt>, sc: Scan<Model>, s: Seq<char>, fin: int) -> bool {
    match sc {
        Scan::Done(m, k) => r matches Ok(v) && v.model() == m && fin == k,
        Scan::Fail(f, at) => r matches Err(h) && fails_with(h, s, f, at),
        Scan::Abort => r matches Err(Halt::Abort),
    }
}

spec fn entry_done(r: Result<(Key, Value), Halt>, sc: Scan<(TKey, Model)>, s: Seq<char>, fin: int) -> bool {
    match sc {
        Scan::Done(e, k) => r matches Ok(kv) && key_model(kv.0) == e.0 && kv.1.model() == e.1
            && fin == k,
        Scan::Fail(f, at) => r matches Err(h) && fails_with(h, s, f, at),
        Scan::Abort => r matches Err(Halt::Abort),
    }
}

proof fn lemma_ent_index(ents: Seq<(i64, Model)>, k: int, q: int)
    requires
        0 <= q <= ents.len(),
        exists|q2: int| q <= q2 < ents.len() && #[trigger] ents[q2].0 == k,
    ensures
        q <= ent_index(ents, k, q) < ents.len(),
        ents[ent_index(ents, k, q)].0 == k,
    decreases ents.len() - q,
{
    if ents[q].0 != k {
        let q2 = choose|q2: int| q <= q2 < ents.len() && #[trigger] ents[q2].0 == k;
        assert(q2 != q);
        lemma_ent_index(ents, k, q + 1);
    }
}

/// Whether the integer keys are exactly `1..=n`, each once.
fn keys_are_positions_exec(ents: &Vec<(i64, Value)>) -> (r: bool)
    ensures
        r == keys_are_positions(ents_model(ents@)),
{
    let ghost em = ents_model(ents@);
    let n = ents.len();
    if n == 0 {
        return false;
    }
    let mut seen: Vec<bool> = Vec::new();
    while seen.len() < n
        invariant
            seen.len() <= n,
            forall|p: int| 0 <= p < seen.len() ==> !seen@[p],
        decreases n - seen.len(),
    {
        seen.push(false);
    }
    let mut q: usize = 0;
    while q < n
        invariant
            n == ents.len(),
            em == ents_model(ents@),
            seen.len() == n,
            q <= n,
            forall|p: int|
                0 <= p < n ==> (#[trigger] seen@[p] <==> exists|q2: int|
                    0 <= q2 < q && #[trigger] em[q2].0 == p + 1),
            forall|q2: int| 0 <= q2 < q ==> 1 <= #[trigger] em[q2].0 <= n,
            forall|q1: int, q2: int|
                0 <= q1 < q2 < q ==> #[trigger] em[q1].0 != #[trigger] em[q2].0,
        decreases n - q,
    {
        let k = ents[q].0;
        assert(em[q as int].0 == k);
        if k < 1 || (k as u64) > (n as u64) {
            assert(!(1 <= em[q as int].0 <= n));
            return false;
        }
        let p = (k - 1) as usize;
        if seen[p] {
            proof {
                let q2 = choose|q2: int| 0 <= q2 < q && #[trigger] em[q2].0 == p + 1;
                assert(em[q2].0 == em[q as int].0);
            }
            return false;
        }
        let ghost old_seen = seen@;
        seen.set(p, true);
        proof {
            assert forall|pp: int| 0 <= pp < n implies (#[trigger] seen@[pp] <==> exists|q2: int|
                0 <= q2 < q + 1 && #[trigger] em[q2].0 == pp + 1) by {
                if pp == p {
                    assert(em[q as int].0 == pp + 1);
                } else {
                    assert(seen@[pp] == old_seen[pp]);
                    if exists|q2: int| 0 <= q2 < q + 1 && #[trigger] em[q2].0 == pp + 1 {
                        let q2 = choose|q2: int| 0 <= q2 < q + 1 && #[trigger] em[q2].0 == pp + 1;
                        assert(q2 != q);
                    }
                }
            }
            assert forall|q1: int, q2: int| 0 <= q1 < q2 < q + 1 implies #[trigger] em[q1].0
                != #[trigger] em[q2].0 by {
                if q2 == q {
                    if em[q1].0 == em[q2].0 {
                        assert(old_seen[p as int]);
                    }
                }
            }
        }
        q = q + 1;
    }
    let mut p: usize = 0;
    while p < n
        invariant
            n == ents.len(),
            em == ents_model(ents@),
            seen.len() == n,
            p <= n,
            forall|pp: int|
                0 <= pp < n ==> (#[trigger] seen@[pp] <==> exists|q2: int|
                    0 <= q2 < n && #[trigger] em[q2].0 == pp + 1),
            forall|pp: int| 1 <= pp <= p ==> #[trigger] key_present(em, pp),
        decreases n - p,
    {
        if !seen[p] {
            assert(!key_present(em, p + 1));
            return false;
        }
        assert(key_present(em, p + 1));
        p = p + 1;
    }
    true
}

/// The array whose element `p` is the entry with key `p + 1`.
fn entries_to_array(ents: &Vec<(i64, Value)>) -> (r: Vec<Value>)
    requires
        keys_are_positions(ents_model(ents@)),
    ensures
        values_model(r@) == entries_array(ents_model(ents@)),
{
    let ghost em = ents_model(ents@);
    let n = ents.len();
    assert(key_present(em, n as int));
    let ghost w = choose|q: int| 0 <= q < em.len() && #[trigger] em[q].0 == n;
    assert(n <= i64::MAX);
    let mut out: Vec<Value> = Vec::new();
    let mut p: usize = 0;
    while p < n
        invariant
            n == ents.len(),
            n <= i64::MAX,
            em == ents_model(ents@),
            keys_are_positions(em),
            p <= n,
            values_model(out@) == entries_array(em).take(p as int),
        decreases n - p,
    {
        let key: i64 = (p + 1) as i64;
        assert(key_present(em, key as int));
        proof {
            lemma_ent_index(em, key as int, 0);
        }
        let mut q: usize = 0;
        while q < n && ents[q].0 != key
            invariant
                n == ents.len(),
                em == ents_model(ents@),
                q <= n,
                ent_index(em, key as int, 0) == ent_index(em, key as int, q as int),
                ent_index(em, key as int, 0) < n,
            decreases n - q,
        {
            q = q + 1;
        }
        assert(em[q as int].0 == key);
        assert(ent_index(em, key as int, q as int) == q);
        assert(entries_array(em)[p as int] == em[q as int].1);
        let x = ents[q].1.duplicate();
        let ghost old_out = out@;
        out.push(x);
        assert(values_model(out@) =~= values_model(old_out).push(em[q as int].1));
        assert(entries_array(em).take(p + 1) =~= entries_array(em).take(p as int).push(entries_array(em)[p as int]));
        assert(values_model(out@) =~= entries_array(em).take(p + 1));
        p = p + 1;
    }
    assert(entries_array(em).take(n as int) =~= entries_array(em));
    out
}

/// A finished table: an array when every key is an integer and the keys are
/// `1..=n`, otherwise the entries by key.
fn finish_table(map: Vec<(String, Value)>, ents: &Vec<(i64, Value)>, pure: bool, auto: i64) -> (r: Value)
    ensures
        r.model() == table_finish(
            TState { map: entries_model(map@), ents: ents_model(ents@), pure, auto },
        ),
{
    if pure && keys_are_positions_exec(ents) {
        let arr = entries_to_array(ents);
        proof {
            lemma_model_array(arr);
        }
        Value::Array(arr)
    } else {
        proof {
            lemma_model_object(map);
        }
        Value::Object(map)
    }
}

/// The key made from a decimal literal in brackets.
fn float_key_exec(lit: &String) -> (r: String)
    ensures
        r@ == float_key(lit@),
{
    match float_literal_json(lit.as_str()) {
        Some(t) => t,
        None => message_of("null"),
    }
}

impl Parser {
    /// A value after optional white space.
    fn parse_value(&mut self) -> (r: Result<Value, Halt>)
        requires
            old(self).inv(),
        ensures
            final(self).inv(),
            final(self).chars == old(self).chars,
            value_done(r, value_at(old(self).chars@, old(self).idx as int), old(self).chars@, final(self).idx as int),
            r is Ok ==> old(self).idx < final(self).idx,
        decreases old(self).chars.len() - old(self).idx, 2int,
    {
        let ghost s = self.chars@;
        let ghost i = self.idx as int;
        self.skip_whitespace_and_comments();
        let j = self.idx;
        match self.peek() {
            None => Err(self.fail(message_of("unexpected end of input"))),
            Some(c) => {
                if c == '{' {
                    self.parse_table()
                } else if c == '"' || c == '\'' {
                    proof {
                        lemma_string_body(s, j + 1, c, seq![]);
                    }
                    let t = self.parse_string()?;
                    Ok(Value::Str(t))
                } else if is_ascii_digit(c) || c == '-' {
                    match self.parse_number()? {
                        Num::Int(v) => Ok(Value::Int(v)),
                        Num::Float(t) => {
                            proof {
                                lemma_number_at(s, j as int);
                            }
                            match float_literal_json(t.as_str()) {
                                Some(_) => Ok(Value::Float(t)),
                                None => Ok(Value::Null),
                            }
                        },
                    }
                } else if is_alphabetic(c) || c == '_' {
                    proof {
                        lemma_ident_end(s, j as int);
                    }
                    let ident = match self.parse_identifier() {
                        Ok(t) => t,
                        Err(e) => {
                            return Err(Halt::Fail(e));
                        },
                    };
                    match keyword(ident.as_str()) {
                        Some(v) => Ok(v),
                        None => Err(
                            self.fail(message_with_text("unexpected identifier: ", ident.as_str())),
                        ),
                    }
                } else {
                    Err(self.fail(message_unexpected_char(c)))
                }
            },
        }
    }

    /// A table `{ ... }`.
    fn parse_table(&mut self) -> (r: Result<Value, Halt>)
        requires
            old(self).inv(),
        ensures
            final(self).inv(),
            final(self).chars == old(self).chars,
            value_done(r, table_at(old(self).chars@, old(self).idx as int), old(self).chars@, final(self).idx as int),
            r is Ok ==> old(self).idx < final(self).idx,
        decreases old(self).chars.len() - old(self).idx, 1int,
    {
        let ghost s = self.chars@;
        let ghost start = self.idx as int;
        self.expect('{')?;
        proof {
            lemma_expect_at(s, start, '{');
        }
        let mut map: Vec<(String, Value)> = Vec::new();
        let mut ents: Vec<(i64, Value)> = Vec::new();
        let mut pure = true;
        let mut auto: i64 = 1;
        proof {
            assert(entries_model(map@) =~= seq![]);
            assert(ents_model(ents@) =~= seq![]);
        }
        loop
            invariant
                self.inv(),
                self.chars == old(self).chars,
                s == old(self).chars@,
                start == old(self).idx as int,
                start < self.idx,
                table_at(s, start) == table_loop(
                    s,
                    self.idx as int,
                    TState { map: entries_model(map@), ents: ents_model(ents@), pure, auto },
                ),
            decreases s.len() - self.idx,
        {
            let ghost i = self.idx as int;
            let ghost st = TState { map: entries_model(map@), ents: ents_model(ents@), pure, auto };
            self.skip_whitespace_and_comments();
            if self.idx < self.chars.len() && self.chars[self.idx] == '}' {
                self.advance();
                return Ok(finish_table(map, &ents, pure, auto));
            }
            let (key, value) = self.parse_table_entry()?;
            let ghost k = self.idx as int;
            let ghost vm = value.model();
            match key {
                Key::Name(t) => {
                    pure = false;
                    table_insert(&mut map, t, value);
                },
                Key::Index(i) => {
                    if i >= auto && i == i64::MAX {
                        return Err(Halt::Abort);
                    }
                    let copy = value.duplicate();
                    ents.push((i, copy));
                    if i >= auto {
                        auto = i + 1;
                    }
                    table_insert(&mut map, i64_to_string(i), value);
                },
                Key::Next => {
                    if auto == i64::MAX {
                        return Err(Halt::Abort);
                    }
                    let i = auto;
                    auto = auto + 1;
                    let copy = value.duplicate();
                    ents.push((i, copy));
                    table_insert(&mut map, i64_to_string(i), value);
                },
            }
            let ghost st2 = TState { map: entries_model(map@), ents: ents_model(ents@), pure, auto };
            assert(ents_model(ents@) =~= st2.ents);
            proof {
                match key_model(key) {
                    TKey::Name(_) => {},
                    TKey::Index(_) => {
                        assert(ents_model(ents@) =~= st.ents.push((ents@.last().0, vm)));
                    },
                    TKey::Next => {
                        assert(ents_model(ents@) =~= st.ents.push((ents@.last().0, vm)));
                    },
                }
                assert(table_add(st, key_model(key), vm) == Some(st2));
            }
            self.skip_whitespace_and_comments();
            if self.idx < self.chars.len() && (self.chars[self.idx] == ',' || self.chars[self.idx]
                == ';') {
                self.advance();
            }
        }
    }

    /// An entry `[key] = value` at the current `[`.
    fn parse_bracket_entry(&mut self) -> (r: Result<(Key, Value), Halt>)
        requires
            old(self).inv(),
            old(self).idx < old(self).chars.len(),
            old(self).chars@[old(self).idx as int] == '[',
        ensures
            final(self).inv(),
            final(self).chars == old(self).chars,
            entry_done(r, bracket_entry_at(old(self).chars@, old(self).idx as int), old(self).chars@, final(self).idx as int),
            r is Ok ==> old(self).idx < final(self).idx,
        decreases old(self).chars.len() - old(self).idx, 3int,
    {
        let ghost s = self.chars@;
        self.advance();
        self.skip_whitespace_and_comments();
        let k = self.idx;
        let key = if k < self.chars.len() && (self.chars[k] == '"' || self.chars[k] == '\'') {
            proof {
                lemma_string_body(s, k + 1, s[k as int], seq![]);
            }
            let t = self.parse_string()?;
            Key::Name(t)
        } else {
            match self.parse_number()? {
                Num::Int(v) => Key::Index(v),
                Num::Float(t) => Key::Name(float_key_exec(&t)),
            }
        };
        self.expect(']')?;
        self.skip_whitespace_and_comments();
        self.expect('=')?;
        let value = self.parse_value()?;
        Ok((key, value))
    }

    /// An entry `name = value`, or a bare keyword, at the current identifier.
    fn parse_named_entry(&mut self) -> (r: Result<(Key, Value), Halt>)
        requires
            old(self).inv(),
            old(self).idx < old(self).chars.len(),
            word_start(old(self).chars@[old(self).idx as int]) || old(self).chars@[old(self).idx as int] == '_',
        ensures
            final(self).inv(),
            final(self).chars == old(self).chars,
            entry_done(r, named_entry_at(old(self).chars@, old(self).idx as int), old(self).chars@, final(self).idx as int),
            r is Ok ==> old(self).idx < final(self).idx,
        decreases old(self).chars.len() - old(self).idx, 3int,
    {
        let ghost s = self.chars@;
        let j = self.idx;
        let start_pos = self.pos;
        proof {
            lemma_ident_end(s, j as int);
        }
        let ident = match self.parse_identifier() {
            Ok(t) => t,
            Err(e) => {
                return Err(Halt::Fail(e));
            },
        };
        self.skip_whitespace_and_comments();
        if self.idx < self.chars.len() && self.chars[self.idx] == '=' {
            self.advance();
            let value = self.parse_value()?;
            Ok((Key::Name(ident), value))
        } else {
            match keyword(ident.as_str()) {
                Some(v) => Ok((Key::Index(1), v)),
                None => Err(
                    Halt::Fail(
                        ParseError {
                            message: message_with_text(
                                "unexpected identifier in table: ",
                                ident.as_str(),
                            ),
                            position: start_pos,
                        },
                    ),
                ),
            }
        }
    }

    /// One entry of a table: `[key] = value`, `name = value`, or a value.
    fn parse_table_entry(&mut self) -> (r: Result<(Key, Value), Halt>)
        requires
            old(self).inv(),
        ensures
            final(self).inv(),
            final(self).chars == old(self).chars,
            entry_done(r, entry_at(old(self).chars@, old(self).idx as int), old(self).chars@, final(self).idx as int),
            r is Ok ==> old(self).idx < final(self).idx,
        decreases old(self).chars.len() - old(self).idx, 4int,
    {
        self.skip_whitespace_and_comments();
        let j = self.idx;
        if j < self.chars.len() && self.chars[j] == '[' {
            self.parse_bracket_entry()
        } else if j < self.chars.len() && (is_alphabetic(self.chars[j]) || self.chars[j] == '_') {
            self.parse_named_entry()
        } else if j < self.chars.len() && (self.chars[j] == '{' || self.chars[j] == '"'
            || self.chars[j] == '\'' || is_ascii_digit(self.chars[j]) || self.chars[j] == '-') {
            let value = self.parse_value()?;
            Ok((Key::Next, value))
        } else {
            Err(self.fail(message_of("expected table key or '}'")))
        }
    }
}

} // verus!

verus! {

proof fn lemma_find_assignment(input: Seq<char>, name: Seq<char>, i: int)
    ensures
        find_assignment(input, name, i) matches Some(p) ==> i <= p && assignment_at(input, name, p),
    decreases input.len() + 1 - i,
{
    if !(i < 0 || i + assignment_of(name).len() > input.len()) && !assignment_at(input, name, i) {
        lemma_find_assignment(input, name, i + 1);
    }
}

/// The first position of `Name = ` (given as `pat`) in `hay` that is not the
/// end of a longer name.
fn find_assignment_in(hay: &Vec<char>, pat: &Vec<char>, Ghost(name): Ghost<Seq<char>>) -> (r:
    Option<usize>)
    requires
        pat@ == assignment_of(name),
    ensures
        match r {
            Some(i) => find_assignment(hay@, name, 0) == Some(i as int),
            None => find_assignment(hay@, name, 0) is None,
        },
{
    if pat.len() > hay.len() {
        return None;
    }
    proof {
        reveal_strlit(" = ");
    }
    assert(pat@.len() >= 3);
    let last = hay.len() - pat.len();
    let mut i: usize = 0;
    while i <= last
        invariant
            pat@ == assignment_of(name),
            pat.len() >= 3,
            last == hay.len() - pat.len(),
            pat.len() <= hay.len(),
            i <= last + 1,
            find_assignment(hay@, name, 0) == find_assignment(hay@, name, i as int),
        decreases last + 1 - i,
    {
        let mut j: usize = 0;
        while j < pat.len() && hay[i + j] == pat[j]
            invariant
                i <= last,
                last == hay.len() - pat.len(),
                j <= pat.len(),
                forall|q: int| 0 <= q < j ==> hay@[i + q] == pat@[q],
            decreases pat.len() - j,
        {
            j = j + 1;
        }
        if j == pat.len() {
            assert(hay@.subrange(i as int, i + pat.len()) =~= pat@);
            if i == 0 {
                return Some(i);
            }
            let c = hay[i - 1];
            if !(is_alphanumeric(c) || c == '_') {
                return Some(i);
            }
        } else {
            assert(hay@.subrange(i as int, i + pat.len())[j as int] != pat@[j as int]);
        }
        i = i + 1;
    }
    None
}

/// Reads variable `variable_name` from the text of a SavedVariables file, or
/// gives `None` where reading would stop abnormally.
pub fn parse_saved_variable_checked(input: &str, variable_name: &str) -> (r: Option<
    Result<Value, ParseError>,
>)
    ensures
        match read_saved_variable(input@, variable_name@) {
            Scan::Done(m, _) => r matches Some(Ok(v)) && v.model() == m,
            Scan::Fail(f, at) => r matches Some(Err(e)) && e.message@ == fault_message(f)
                && e.position == at,
            Scan::Abort => r is None,
        },
{
    broadcast use vstd::slice::group_slice_axioms;

    let bytes = input.as_bytes();
    let total = bytes.len();
    let hay = chars_of(input);
    let mut search = String::new();
    push_str(&mut search, variable_name);
    push_str(&mut search, " = ");
    let pat = chars_of(search.as_str());
    assert(pat@ == assignment_of(variable_name@));
    match find_assignment_in(&hay, &pat, Ghost(variable_name@)) {
        None => {
            let mut m = String::new();
            push_str(&mut m, "variable '");
            push_str(&mut m, variable_name);
            push_str(&mut m, "' not found in file");
            assert(m@ =~= fault_message(Fault::VariableNotFound(variable_name@)));
            Some(Err(ParseError { message: m, position: 0 }))
        },
        Some(p) => {
            proof {
                lemma_find_assignment(hay@, variable_name@, 0);
            }
            let b = p + pat.len();
            let rest = string_of(&hay, b, hay.len());
            assert(rest@ =~= input@.skip(b as int));
            let mut parser = Parser::new(rest.as_str());
            match parser.parse_value() {
                Ok(v) => Some(Ok(v)),
                Err(Halt::Fail(e)) => Some(Err(e)),
                Err(Halt::Abort) => None,
            }
        },
    }
}

/// Reads variable `variable_name` from the text of a SavedVariables file.
pub fn parse_saved_variable(input: &str, variable_name: &str) -> (r: Result<Value, ParseError>)
    requires
        !(read_saved_variable(input@, variable_name@) is Abort),
    ensures
        match read_saved_variable(input@, variable_name@) {
            Scan::Done(m, _) => r matches Ok(v) && v.model() == m,
            Scan::Fail(f, at) => r matches Err(e) && e.message@ == fault_message(f) && e.position
                == at,
            Scan::Abort => false,
        },
{
    match parse_saved_variable_checked(input, variable_name) {
        Some(r) => r,
        None => Err(ParseError { message: String::new(), position: 0 }),
    }
}

/// The name of CharTracker's variable.
pub open spec fn chartracker_db_name() -> Seq<char> {
    seq!['C', 'h', 'a', 'r', 'T', 'r', 'a', 'c', 'k', 'e', 'r', 'D', 'B']
}

/// Reads `CharTrackerDB` from the text of a SavedVariables file.
pub fn parse_chartracker_db(input: &str) -> (r: Result<Value, ParseError>)
    requires
        !(read_saved_variable(input@, chartracker_db_name()) is Abort),
    ensures
        match read_saved_variable(input@, chartracker_db_name()) {
            Scan::Done(m, _) => r matches Ok(v) && v.model() == m,
            Scan::Fail(f, at) => r matches Err(e) && e.message@ == fault_message(f) && e.position
                == at,
            Scan::Abort => false,
        },
{
    proof {
        reveal_strlit("CharTrackerDB");
    }
    assert("CharTrackerDB"@ =~= chartracker_db_name());
    parse_saved_variable(input, "CharTrackerDB")
}

} // verus!
