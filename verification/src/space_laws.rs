//! White space between tokens: where the reader skips white space and
//! comments, one more white-space character changes nothing but the position
//! at which reading resumes.

use vstd::prelude::*;
use crate::lua_parser::{
    skip_space, skip_white, skip_line, skip_block, window_is, lemma_skip_white, lemma_skip_line,
    lemma_skip_block,
};

verus! {

proof fn lemma_shift_white(p: Seq<char>, r: Seq<char>, k: int)
    requires
        0 <= k <= r.len(),
    ensures
        skip_white(p + r, p.len() + k) == p.len() + skip_white(r, k),
    decreases r.len() - k,
{
    if k < r.len() {
        assert((p + r)[p.len() + k] == r[k]);
        lemma_shift_white(p, r, k + 1);
    }
}

proof fn lemma_shift_line(p: Seq<char>, r: Seq<char>, k: int)
    requires
        0 <= k <= r.len(),
    ensures
        skip_line(p + r, p.len() + k) == p.len() + skip_line(r, k),
    decreases r.len() - k,
{
    if k < r.len() {
        assert((p + r)[p.len() + k] == r[k]);
        lemma_shift_line(p, r, k + 1);
    }
}

proof fn lemma_shift_window(p: Seq<char>, r: Seq<char>, k: int, a: char, b: char)
    requires
        0 <= k,
    ensures
        window_is(p + r, p.len() + k, a, b) == window_is(r, k, a, b),
{
    if k + 1 < r.len() {
        assert((p + r)[p.len() + k] == r[k]);
        assert((p + r)[p.len() + k + 1] == r[k + 1]);
    }
}

proof fn lemma_shift_block(p: Seq<char>, r: Seq<char>, k: int)
    requires
        0 <= k <= r.len(),
    ensures
        skip_block(p + r, p.len() + k) == p.len() + skip_block(r, k),
    decreases r.len() - k,
{
    lemma_shift_window(p, r, k, ']', ']');
    if k + 1 < r.len() {
        lemma_shift_block(p, r, k + 1);
    }
}

proof fn lemma_shift_space(p: Seq<char>, r: Seq<char>, k: int)
    requires
        0 <= k <= r.len(),
    ensures
        skip_space(p + r, p.len() + k) == match skip_space(r, k) {
            Some(j) => Some(p.len() + j),
            None => None,
        },
    decreases r.len() - k,
{
    let q = p + r;
    let n = p.len() as int;
    lemma_skip_white(r, k);
    lemma_shift_white(p, r, k);
    let j = skip_white(r, k);
    assert(skip_white(q, n + k) == n + j);
    lemma_shift_window(p, r, j, '-', '-');
    lemma_shift_window(p, r, j + 2, '[', '[');
    if window_is(r, j, '-', '-') {
        if window_is(r, j + 2, '[', '[') {
            lemma_skip_block(r, j + 4);
            lemma_shift_block(p, r, j + 4);
            lemma_shift_space(p, r, skip_block(r, j + 4));
        } else {
            lemma_skip_line(r, j);
            lemma_shift_line(p, r, j);
            lemma_shift_space(p, r, skip_line(r, j));
        }
    }
}

/// A white-space character (Unicode `White_Space`, what `char::is_whitespace`
/// tests: tab, line feed, vertical tab, form feed, carriage return, space,
/// U+0085, U+00A0, U+1680, U+2000 to U+200A, U+2028, U+2029, U+202F, U+205F
/// and U+3000) inserted where the reader skips white space and comments does
/// not change where it stops, but for the one character added: a file with
/// `\r\n` line breaks reads as one with `\n`.
pub proof fn lemma_white_space_is_skipped(s: Seq<char>, i: int, c: char)
    requires
        0 <= i <= s.len(),
        ({
            let u = c as u32;
            ||| u == 0x09 || u == 0x0A || u == 0x0B || u == 0x0C || u == 0x0D || u == 0x20
            ||| u == 0x85 || u == 0xA0 || u == 0x1680
            ||| 0x2000 <= u <= 0x200A
            ||| u == 0x2028 || u == 0x2029 || u == 0x202F || u == 0x205F || u == 0x3000
        }),
    ensures
        skip_space(s.take(i) + seq![c] + s.skip(i), i) == match skip_space(s, i) {
            Some(j) => Some(j + 1),
            None => None,
        },
{
    let p = s.take(i);
    let r = s.skip(i);
    assert(s =~= p + r);
    lemma_shift_space(p, r, 0);
    let pc = p + seq![c];
    let t = pc + r;
    assert(s.take(i) + seq![c] + s.skip(i) =~= t);
    lemma_shift_space(pc, r, 0);
    assert(t[i] == c);
    assert(skip_white(t, i) == skip_white(t, i + 1));
}

} // verus!
