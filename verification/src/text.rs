//! Character and string helpers shared by the reader and the writer:
//! character classes, UTF-8 widths, decimal numerals, ordering of keys and
//! substring search.

use vstd::prelude::*;
use vstd::utf8::*;

verus! {

// ------------------------------------------------------------------
// Character classes
// ------------------------------------------------------------------

/// Unicode `White_Space`, the set that `char::is_whitespace` tests.
pub open spec fn is_white(c: char) -> bool {
    let u = c as u32;
    ||| 0x09 <= u <= 0x0D
    ||| u == 0x20
    ||| u == 0x85
    ||| u == 0xA0
    ||| u == 0x1680
    ||| 0x2000 <= u <= 0x200A
    ||| u == 0x2028
    ||| u == 0x2029
    ||| u == 0x202F
    ||| u == 0x205F
    ||| u == 0x3000
}

/// Whether `c` is white space (the Unicode `White_Space` property).
pub fn is_whitespace(c: char) -> (r: bool)
    ensures
        r == is_white(c),
{
    let u = c as u32;
    (0x09 <= u && u <= 0x0D) || u == 0x20 || u == 0x85 || u == 0xA0 || u == 0x1680 || (0x2000
        <= u && u <= 0x200A) || u == 0x2028 || u == 0x2029 || u == 0x202F || u == 0x205F || u
        == 0x3000
}

/// An ASCII decimal digit.
pub open spec fn is_digit(c: char) -> bool {
    '0' <= c <= '9'
}

/// An ASCII letter.
pub open spec fn is_letter(c: char) -> bool {
    ('a' <= c <= 'z') || ('A' <= c <= 'Z')
}

pub fn is_ascii_digit(c: char) -> (r: bool)
    ensures
        r == is_digit(c),
{
    '0' <= c && c <= '9'
}

/// What `char::is_alphabetic` answers for `c` (the Unicode `Alphabetic` property).
pub uninterp spec fn alphabetic(c: char) -> bool;

/// What `char::is_alphanumeric` answers for `c`.
pub uninterp spec fn alphanumeric(c: char) -> bool;

/// What `char::to_uppercase` yields for `c`.
pub uninterp spec fn uppercase(c: char) -> Seq<char>;

/// Trusted: calls `char::is_alphabetic`. Claimed: the result is a function of `c`
/// alone, and among ASCII characters exactly the letters are alphabetic (std
/// answers ASCII with `'a'..='z' | 'A'..='Z'`).
#[verifier::external_body]
pub(crate) fn is_alphabetic(c: char) -> (r: bool)
    ensures
        r == alphabetic(c),
        (c as u32) < 128 ==> (r <==> is_letter(c)),
{
    c.is_alphabetic()
}

/// Trusted: calls `char::is_alphanumeric`. Claimed: the result is a function of `c`
/// alone, every alphabetic character is alphanumeric (std: alphabetic or numeric),
/// and among ASCII characters exactly letters and digits are alphanumeric.
#[verifier::external_body]
pub(crate) fn is_alphanumeric(c: char) -> (r: bool)
    ensures
        r == alphanumeric(c),
        alphabetic(c) ==> r,
        (c as u32) < 128 ==> (r <==> is_letter(c) || is_digit(c)),
{
    c.is_alphanumeric()
}

/// The ASCII upper-case form of an ASCII character.
pub open spec fn ascii_upper(c: char) -> char {
    if 'a' <= c <= 'z' {
        ((c as u32) - 32) as char
    } else {
        c
    }
}

/// Trusted: calls `char::to_uppercase` and collects what it yields. Claimed: the
/// result is a function of `c` alone, and an ASCII character maps to its ASCII
/// upper-case form (std maps ASCII with `to_ascii_uppercase`).
#[verifier::external_body]
pub(crate) fn to_uppercase(c: char) -> (r: String)
    ensures
        r@ == uppercase(c),
        (c as u32) < 128 ==> r@ == seq![ascii_upper(c)],
{
    c.to_uppercase().collect()
}

// ------------------------------------------------------------------
// UTF-8 widths and byte offsets
// ------------------------------------------------------------------

/// Number of bytes of the UTF-8 encoding of `c`.
pub open spec fn utf8_width(c: char) -> nat {
    encode_scalar(c as u32).len()
}

/// Byte offset of the `i`-th character of `s` in its UTF-8 encoding.
pub open spec fn byte_offset(s: Seq<char>, i: int) -> nat {
    encode_utf8(s.take(i)).len()
}

/// `char::len_utf8`.
pub fn char_width(c: char) -> (r: usize)
    ensures
        r == utf8_width(c),
        1 <= r <= 4,
        (c as u32) < 128 <==> r == 1,
{
    let u = c as u32;
    if u < 0x80 {
        1
    } else if u < 0x800 {
        2
    } else if u < 0x10000 {
        3
    } else {
        4
    }
}

pub proof fn lemma_encode_concat(a: Seq<char>, b: Seq<char>)
    ensures
        encode_utf8(a + b) == encode_utf8(a) + encode_utf8(b),
    decreases a.len(),
{
    if a.len() == 0 {
        assert(a + b =~= b);
        assert(encode_utf8(a) =~= Seq::<u8>::empty());
        assert(encode_utf8(a) + encode_utf8(b) =~= encode_utf8(b));
    } else {
        assert((a + b).drop_first() =~= a.drop_first() + b);
        lemma_encode_concat(a.drop_first(), b);
        assert((a + b)[0] == a[0]);
        assert(encode_utf8(a + b) =~= encode_scalar(a[0] as u32) + (encode_utf8(a.drop_first())
            + encode_utf8(b)));
    }
}

/// Moving one character forward moves the byte offset by that character's width.
pub proof fn lemma_byte_offset_step(s: Seq<char>, i: int)
    requires
        0 <= i < s.len(),
    ensures
        byte_offset(s, i + 1) == byte_offset(s, i) + utf8_width(s[i]),
{
    assert(s.take(i + 1) =~= s.take(i) + seq![s[i]]);
    lemma_encode_concat(s.take(i), seq![s[i]]);
    assert(seq![s[i]].drop_first() =~= Seq::<char>::empty());
    assert(encode_utf8(seq![s[i]]) =~= encode_scalar(s[i] as u32) + encode_utf8(
        Seq::<char>::empty(),
    ));
}

/// Byte offsets grow with the character index.
pub proof fn lemma_byte_offset_mono(s: Seq<char>, i: int, j: int)
    requires
        0 <= i <= j <= s.len(),
    ensures
        byte_offset(s, i) <= byte_offset(s, j),
    decreases j - i,
{
    if i < j {
        lemma_byte_offset_mono(s, i, j - 1);
        lemma_byte_offset_step(s, j - 1);
    }
}

// ------------------------------------------------------------------
// Building strings
// ------------------------------------------------------------------

/// Appends one character to a string.
///
/// Trusted: calls `String::push`, which std documents as appending the char
/// to the end of the string.
#[verifier::external_body]
pub(crate) fn push_char(s: &mut String, c: char)
    ensures
        final(s)@ == old(s)@.push(c),
{
    s.push(c);
}

/// Appends a string slice to a string.
pub fn push_str(s: &mut String, t: &str)
    ensures
        final(s)@ == old(s)@ + t@,
{
    s.append(t);
}

/// Whether two string slices hold the same characters.
pub fn str_eq(a: &str, b: &str) -> (r: bool)
    ensures
        r == (a@ == b@),
{
    let x = chars_of(a);
    let y = chars_of(b);
    if x.len() != y.len() {
        return false;
    }
    let mut k: usize = 0;
    while k < x.len()
        invariant
            x@ == a@,
            y@ == b@,
            x.len() == y.len(),
            k <= x.len(),
            forall|q: int| 0 <= q < k ==> x@[q] == y@[q],
        decreases x.len() - k,
    {
        if x[k] != y[k] {
            return false;
        }
        k = k + 1;
    }
    assert(x@ =~= y@);
    true
}

/// The characters of a string slice, in order.
pub fn chars_of(s: &str) -> (r: Vec<char>)
    ensures
        r@ == s@,
{
    let mut r: Vec<char> = Vec::new();
    for c in it: s.chars()
        invariant
            r@ == it.seq().take(it.index() as int),
    {
        r.push(c);
    }
    assert(r@ =~= s@);
    r
}

/// The characters of `v` from `b` on.
pub fn tail_chars(v: &Vec<char>, b: usize) -> (r: Vec<char>)
    requires
        b <= v.len(),
    ensures
        r@ == v@.skip(b as int),
{
    let mut r: Vec<char> = Vec::new();
    let mut k = b;
    while k < v.len()
        invariant
            b <= k <= v.len(),
            r@ == v@.subrange(b as int, k as int),
        decreases v.len() - k,
    {
        r.push(v[k]);
        assert(r@ =~= v@.subrange(b as int, k + 1));
        k = k + 1;
    }
    assert(r@ =~= v@.skip(b as int));
    r
}

/// The string made of `v[from..to]`.
pub fn string_of(v: &Vec<char>, from: usize, to: usize) -> (r: String)
    requires
        from <= to <= v.len(),
    ensures
        r@ == v@.subrange(from as int, to as int),
{
    let mut r = String::new();
    let mut k = from;
    while k < to
        invariant
            from <= k <= to <= v.len(),
            r@ == v@.subrange(from as int, k as int),
        decreases to - k,
    {
        push_char(&mut r, v[k]);
        assert(v@.subrange(from as int, k + 1) =~= v@.subrange(from as int, k as int).push(
            v@[k as int],
        ));
        k = k + 1;
    }
    r
}

// ------------------------------------------------------------------
// Decimal numerals
// ------------------------------------------------------------------

/// The character of decimal digit `d`.
pub open spec fn digit_char(d: nat) -> char {
    ((d + 48) as u8) as char
}

/// The value of a decimal digit character.
pub open spec fn digit_value(c: char) -> nat {
    ((c as u32) - 48) as nat
}

/// Decimal numeral of `n` without leading zeros.
pub open spec fn nat_decimal(n: nat) -> Seq<char>
    decreases n,
{
    if n < 10 {
        seq![digit_char(n)]
    } else {
        nat_decimal(n / 10).push(digit_char(n % 10))
    }
}

/// Decimal numeral of `i`, with a leading `-` when negative (as `i64::to_string`).
pub open spec fn int_decimal(i: int) -> Seq<char> {
    if i < 0 {
        seq!['-'] + nat_decimal((-i) as nat)
    } else {
        nat_decimal(i as nat)
    }
}

fn digit_to_char(d: u64) -> (c: char)
    requires
        d < 10,
    ensures
        c == digit_char(d as nat),
        is_digit(c),
        digit_value(c) == d,
{
    let b: u8 = (d as u8) + 48;
    b as char
}

fn push_u64_decimal(out: &mut String, n: u64)
    ensures
        final(out)@ == old(out)@ + nat_decimal(n as nat),
    decreases n,
{
    if n < 10 {
        let c = digit_to_char(n);
        push_char(out, c);
        assert(old(out)@.push(c) =~= old(out)@ + seq![c]);
    } else {
        push_u64_decimal(out, n / 10);
        let c = digit_to_char(n % 10);
        push_char(out, c);
        assert(old(out)@ + nat_decimal((n / 10) as nat).push(c) =~= (old(out)@ + nat_decimal(
            (n / 10) as nat,
        )).push(c));
    }
}

/// Appends the decimal numeral of `i` (what `i64::to_string` writes).
pub fn push_i64_decimal(out: &mut String, i: i64)
    ensures
        final(out)@ == old(out)@ + int_decimal(i as int),
{
    if i < 0 {
        push_char(out, '-');
        let m: u64 = if i == i64::MIN {
            9223372036854775808u64
        } else {
            (-i) as u64
        };
        push_u64_decimal(out, m);
        assert(old(out)@.push('-') + nat_decimal(m as nat) =~= old(out)@ + (seq!['-']
            + nat_decimal(m as nat)));
    } else {
        push_u64_decimal(out, i as u64);
    }
}

/// The decimal numeral of `i` as a new string.
pub fn i64_to_string(i: i64) -> (r: String)
    ensures
        r@ == int_decimal(i as int),
{
    let mut r = String::new();
    push_i64_decimal(&mut r, i);
    assert(Seq::<char>::empty() + int_decimal(i as int) =~= int_decimal(i as int));
    r
}

/// The decimal numeral of `n` as a new string.
pub fn u64_to_string(n: u64) -> (r: String)
    ensures
        r@ == nat_decimal(n as nat),
{
    let mut r = String::new();
    push_u64_decimal(&mut r, n);
    assert(Seq::<char>::empty() + nat_decimal(n as nat) =~= nat_decimal(n as nat));
    r
}

/// All characters of `s` are ASCII digits.
pub open spec fn all_digits(s: Seq<char>) -> bool {
    forall|k: int| 0 <= k < s.len() ==> is_digit(#[trigger] s[k])
}

/// Value of a string of decimal digits.
pub open spec fn digits_value(s: Seq<char>) -> nat
    decreases s.len(),
{
    if s.len() == 0 {
        0
    } else {
        digits_value(s.drop_last()) * 10 + digit_value(s.last())
    }
}

/// What `i64::from_str` gives for a text made of an optional `-` and decimal digits.
pub open spec fn parse_int_text(t: Seq<char>) -> Option<i64> {
    if t.len() > 0 && t[0] == '-' {
        let d = t.drop_first();
        if d.len() > 0 && all_digits(d) && digits_value(d) <= 9223372036854775808 {
            Some((-(digits_value(d) as int)) as i64)
        } else {
            None
        }
    } else if t.len() > 0 && all_digits(t) && digits_value(t) <= 9223372036854775807 {
        Some(digits_value(t) as i64)
    } else {
        None
    }
}

pub proof fn lemma_digits_value_prefix(s: Seq<char>, k: int)
    requires
        0 <= k <= s.len(),
        all_digits(s),
    ensures
        digits_value(s.take(k)) <= digits_value(s),
    decreases s.len(),
{
    if k < s.len() {
        assert(s.drop_last().take(k) =~= s.take(k));
        lemma_digits_value_prefix(s.drop_last(), k);
    } else {
        assert(s.take(k) =~= s);
    }
}

/// Parses `v[from..to]`, an optional `-` followed by digits, as `i64::from_str` would.
pub fn parse_i64_chars(v: &Vec<char>, from: usize, to: usize) -> (r: Option<i64>)
    requires
        from <= to <= v.len(),
        forall|k: int|
            from <= k < to ==> is_digit(#[trigger] v@[k]) || (k == from && v@[k] == '-'),
    ensures
        r == parse_int_text(v@.subrange(from as int, to as int)),
{
    let ghost t = v@.subrange(from as int, to as int);
    if from == to {
        return None;
    }
    let neg = v[from] == '-';
    let start = if neg {
        from + 1
    } else {
        from
    };
    let ghost d = v@.subrange(start as int, to as int);
    if neg {
        assert(t.drop_first() =~= d);
    } else {
        assert(t =~= d);
    }
    if start == to {
        return None;
    }
    assert(all_digits(d));
    let mut acc: u128 = 0;
    let mut k = start;
    while k < to
        invariant
            start <= k <= to <= v.len(),
            d == v@.subrange(start as int, to as int),
            all_digits(d),
            d.len() > 0,
            t == v@.subrange(from as int, to as int),
            neg ==> t.len() > 0 && t[0] == '-' && t.drop_first() == d,
            !neg ==> t == d,
            acc as nat == digits_value(d.take(k - start)),
            acc <= 9223372036854775808,
        decreases to - k,
    {
        let c = v[k];
        assert(d[k - start] == c);
        assert(is_digit(d[k - start]));
        let dv: u128 = (c as u32 - 48) as u128;
        assert(d.take(k - start + 1).drop_last() =~= d.take(k - start));
        assert(d.take(k - start + 1).last() == c);
        assert(dv == digit_value(c));
        let next: u128 = acc * 10 + dv;
        if next > 9223372036854775808 {
            proof {
                assert(digits_value(d.take(k - start + 1)) == next);
                lemma_digits_value_prefix(d, k - start + 1);
            }
            return None;
        }
        acc = next;
        k = k + 1;
    }
    assert(d.take(to - start) =~= d);
    if neg {
        if acc == 9223372036854775808 {
            Some(i64::MIN)
        } else {
            Some(-(acc as i64))
        }
    } else {
        if acc == 9223372036854775808 {
            None
        } else {
            Some(acc as i64)
        }
    }
}

// ------------------------------------------------------------------
// Ordering of keys (byte-wise, as `String`'s `Ord`)
// ------------------------------------------------------------------

/// Lexicographic order on characters by code point, which is the order of
/// their UTF-8 bytes and so the order of `String`.
pub open spec fn seq_lt(a: Seq<char>, b: Seq<char>) -> bool
    decreases a.len(),
{
    if a.len() == 0 {
        b.len() > 0
    } else if b.len() == 0 {
        false
    } else if a[0] != b[0] {
        (a[0] as u32) < (b[0] as u32)
    } else {
        seq_lt(a.drop_first(), b.drop_first())
    }
}

pub proof fn lemma_seq_lt_irreflexive(a: Seq<char>)
    ensures
        !seq_lt(a, a),
    decreases a.len(),
{
    if a.len() > 0 {
        lemma_seq_lt_irreflexive(a.drop_first());
    }
}

pub proof fn lemma_seq_lt_transitive(a: Seq<char>, b: Seq<char>, c: Seq<char>)
    requires
        seq_lt(a, b),
        seq_lt(b, c),
    ensures
        seq_lt(a, c),
    decreases a.len(),
{
    if a.len() > 0 && b.len() > 0 && c.len() > 0 {
        if a[0] == b[0] && b[0] == c[0] {
            lemma_seq_lt_transitive(a.drop_first(), b.drop_first(), c.drop_first());
        }
    }
}

proof fn char_cast_injective(a: char, b: char)
    requires
        a != b,
    ensures
        (a as u32) != (b as u32),
{
}

pub proof fn lemma_seq_lt_total(a: Seq<char>, b: Seq<char>)
    ensures
        a == b || seq_lt(a, b) || seq_lt(b, a),
    decreases a.len(),
{
    if a.len() > 0 && b.len() > 0 {
        if a[0] == b[0] {
            lemma_seq_lt_total(a.drop_first(), b.drop_first());
            if a.drop_first() == b.drop_first() {
                assert(a =~= seq![a[0]] + a.drop_first());
                assert(b =~= seq![b[0]] + b.drop_first());
            }
        } else {
            char_cast_injective(a[0], b[0]);
        }
    } else if a.len() == 0 && b.len() == 0 {
        assert(a =~= b);
    }
}

pub proof fn lemma_seq_lt_asymmetric(a: Seq<char>, b: Seq<char>)
    requires
        seq_lt(a, b),
    ensures
        !seq_lt(b, a),
{
    if seq_lt(b, a) {
        lemma_seq_lt_transitive(a, b, a);
        lemma_seq_lt_irreflexive(a);
    }
}

/// Whether `a` sorts strictly before `b`.
pub fn str_less(a: &str, b: &str) -> (r: bool)
    ensures
        r == seq_lt(a@, b@),
{
    let x = chars_of(a);
    let y = chars_of(b);
    let mut k: usize = 0;
    assert(a@.skip(0) =~= a@);
    assert(b@.skip(0) =~= b@);
    while k < x.len() && k < y.len() && x[k] == y[k]
        invariant
            x@ == a@,
            y@ == b@,
            k <= x.len(),
            k <= y.len(),
            seq_lt(a@, b@) == seq_lt(a@.skip(k as int), b@.skip(k as int)),
        decreases x.len() - k,
    {
        assert(a@.skip(k as int).drop_first() =~= a@.skip(k + 1));
        assert(b@.skip(k as int).drop_first() =~= b@.skip(k + 1));
        k = k + 1;
    }
    if k == x.len() {
        k < y.len()
    } else if k == y.len() {
        false
    } else {
        (x[k] as u32) < (y[k] as u32)
    }
}

// ------------------------------------------------------------------
// Substring search
// ------------------------------------------------------------------

/// `pat` occurs in `hay` starting at index `i`.
pub open spec fn occurs_at(hay: Seq<char>, pat: Seq<char>, i: int) -> bool {
    0 <= i && i + pat.len() <= hay.len() && hay.subrange(i, i + pat.len()) == pat
}

/// The first index at or after `i` where `pat` occurs in `hay`.
pub open spec fn find_from(hay: Seq<char>, pat: Seq<char>, i: int) -> Option<int>
    decreases hay.len() + 1 - i,
{
    if i < 0 || i > hay.len() || i + pat.len() > hay.len() {
        None
    } else if occurs_at(hay, pat, i) {
        Some(i)
    } else {
        find_from(hay, pat, i + 1)
    }
}

pub proof fn lemma_find_from(hay: Seq<char>, pat: Seq<char>, i: int)
    ensures
        find_from(hay, pat, i) matches Some(p) ==> i <= p && occurs_at(hay, pat, p) && forall|
            q: int,
        | i <= q < p ==> !occurs_at(hay, pat, q),
    decreases hay.len() + 1 - i,
{
    if !(i < 0 || i > hay.len() || i + pat.len() > hay.len()) && !occurs_at(hay, pat, i) {
        lemma_find_from(hay, pat, i + 1);
    }
}

/// Index of the first occurrence of `pat` in `hay` (as `str::find`, counted in characters).
pub fn find_chars(hay: &Vec<char>, pat: &Vec<char>) -> (r: Option<usize>)
    ensures
        match r {
            Some(i) => find_from(hay@, pat@, 0) == Some(i as int),
            None => find_from(hay@, pat@, 0) is None,
        },
{
    if pat.len() > hay.len() {
        return None;
    }
    let last = hay.len() - pat.len();
    let mut i: usize = 0;
    while i <= last
        invariant
            last == hay.len() - pat.len(),
            pat.len() <= hay.len(),
            i <= last + 1,
            find_from(hay@, pat@, 0) == find_from(hay@, pat@, i as int),
        decreases last + 1 - i,
    {
        let mut j: usize = 0;
        while j < pat.len() && hay[i + j] == pat[j]
            invariant
                i <= last,
                last == hay.len() - pat.len(),
                j <= pat.len(),
                forall|q: int| 0 <= q < j ==> hay@[i + q] == pat@[q],
            decreases pat.len() - j,
        {
            j = j + 1;
        }
        if j == pat.len() {
            assert(hay@.subrange(i as int, i + pat.len()) =~= pat@);
            return Some(i);
        }
        assert(hay@.subrange(i as int, i + pat.len())[j as int] != pat@[j as int]);
        i = i + 1;
    }
    None
}

} // verus!
