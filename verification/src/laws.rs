//! What holds across the reader and the writer: a value written as a
//! SavedVariables file is read back as the same value.

use vstd::prelude::*;
use crate::lua_parser::{
    NumLit, Scan, has_dot, ident_end, number_at, number_end, number_start, skip_space, skip_white,
    string_body, string_at, window_is, word_char, TState, table_start, ent_index, float_json_text, value_at,
    table_loop, table_add, TKey, entry_at, bracket_entry_at, bracket_key_at, expect_at,
    keys_are_positions, key_present, entries_array, read_saved_variable, assignment_of,
    find_assignment, float_shape, float_literal, short_float_literal,
};
use crate::value::{Model, keys_sorted, lower_bound_from, obj_insert};
use crate::lua_writer::{
    escape_char, escape_key, escape_key_char, escape_string, render, render_items, render_entries,
    saved_variable_text,
};
use crate::text::{
    all_digits, digit_char, digit_value, digits_value, int_decimal, is_digit, is_white, nat_decimal,
    parse_int_text, seq_lt, occurs_at,
};

verus! {

/// The text of `x` followed by `y` stands at `i` in `s`: so does each part.
proof fn lemma_split(s: Seq<char>, i: int, x: Seq<char>, y: Seq<char>)
    requires
        0 <= i,
        i + x.len() + y.len() <= s.len(),
        s.subrange(i, i + x.len() + y.len()) == x + y,
    ensures
        s.subrange(i, i + x.len()) == x,
        s.subrange(i + x.len(), i + x.len() + y.len()) == y,
{
    assert(s.subrange(i, i + x.len()) =~= (x + y).subrange(0, x.len() as int));
    assert(s.subrange(i + x.len(), i + x.len() + y.len()) =~= (x + y).subrange(
        x.len() as int,
        (x.len() + y.len()) as int,
    ));
    assert((x + y).subrange(0, x.len() as int) =~= x);
    assert((x + y).subrange(x.len() as int, (x.len() + y.len()) as int) =~= y);
}

/// The text `x` stands at `i` in `s`.
spec fn stands_at(s: Seq<char>, i: int, x: Seq<char>) -> bool {
    0 <= i && i + x.len() <= s.len() && s.subrange(i, i + x.len()) == x
}

proof fn lemma_stands_at_char(s: Seq<char>, i: int, x: Seq<char>, k: int)
    requires
        stands_at(s, i, x),
        0 <= k < x.len(),
    ensures
        s[i + k] == x[k],
{
    assert(s.subrange(i, i + x.len())[k] == s[i + k]);
}

proof fn lemma_nat_decimal(n: nat)
    ensures
        nat_decimal(n).len() >= 1,
        all_digits(nat_decimal(n)),
        digits_value(nat_decimal(n)) == n,
    decreases n,
{
    if n >= 10 {
        lemma_nat_decimal(n / 10);
        let d = nat_decimal(n / 10);
        let e = d.push(digit_char(n % 10));
        assert(e.drop_last() =~= d);
        assert(nat_decimal(n) == e);
        assert(n == (n / 10) * 10 + n % 10);
        assert(digit_value(digit_char(n % 10)) == n % 10);
        assert(digits_value(e) == digits_value(d) * 10 + digit_value(e.last()));
        assert forall|k: int| 0 <= k < e.len() implies is_digit(#[trigger] e[k]) by {
            if k < d.len() {
                assert(e[k] == d[k]);
            }
        }
    } else {
        let e = seq![digit_char(n)];
        assert(e.drop_last() =~= Seq::<char>::empty());
        assert(digit_value(digit_char(n)) == n);
        assert(digits_value(e) == digits_value(e.drop_last()) * 10 + digit_value(e.last()));
    }
}

/// The decimal numeral of an integer reads back as that integer.
proof fn lemma_int_decimal_parses(v: i64)
    ensures
        parse_int_text(int_decimal(v as int)) == Some(v),
        int_decimal(v as int).len() >= 1,
        forall|k: int|
            0 <= k < int_decimal(v as int).len() ==> is_digit(#[trigger] int_decimal(v as int)[k])
                || (k == 0 && v < 0 && int_decimal(v as int)[k] == '-'),
        v >= 0 ==> is_digit(int_decimal(v as int)[0]),
{
    if v < 0 {
        let m = (-(v as int)) as nat;
        lemma_nat_decimal(m);
        let t = int_decimal(v as int);
        assert(t.drop_first() =~= nat_decimal(m));
        assert forall|k: int| 0 <= k < t.len() implies is_digit(#[trigger] t[k]) || (k == 0 && v
            < 0 && t[k] == '-') by {
            if k > 0 {
                assert(t[k] == nat_decimal(m)[k - 1]);
            }
        }
    } else {
        lemma_nat_decimal(v as nat);
    }
}

} // verus!

verus! {

proof fn lemma_skip_white_to(s: Seq<char>, i: int, j: int)
    requires
        0 <= i <= j < s.len(),
        forall|k: int| i <= k < j ==> is_white(#[trigger] s[k]),
        !is_white(s[j]),
    ensures
        skip_white(s, i) == j,
    decreases j - i,
{
    if i < j {
        lemma_skip_white_to(s, i + 1, j);
    }
}

/// From `i`, white space runs to `j`, where a character stands that starts no
/// comment: reading skips to `j`.
proof fn lemma_skip_to(s: Seq<char>, i: int, j: int)
    requires
        0 <= i <= j < s.len(),
        forall|k: int| i <= k < j ==> is_white(#[trigger] s[k]),
        !is_white(s[j]),
        !window_is(s, j, '-', '-'),
    ensures
        skip_space(s, i) == Some(j),
{
    lemma_skip_white_to(s, i, j);
}

proof fn lemma_escape_string_front(x: Seq<char>)
    requires
        x.len() > 0,
    ensures
        escape_string(x) == escape_char(x[0]) + escape_string(x.drop_first()),
    decreases x.len(),
{
    if x.len() == 1 {
        assert(x.drop_last() =~= Seq::<char>::empty());
        assert(x.drop_first() =~= Seq::<char>::empty());
        assert(escape_string(x) =~= escape_char(x[0]) + escape_string(x.drop_first()));
    } else {
        lemma_escape_string_front(x.drop_last());
        assert(x.drop_last().drop_first() =~= x.drop_first().drop_last());
        assert(x.drop_first().last() == x.last());
        assert(escape_string(x) =~= escape_char(x[0]) + escape_string(x.drop_first()));
    }
}

proof fn lemma_escape_key_front(x: Seq<char>)
    requires
        x.len() > 0,
    ensures
        escape_key(x) == escape_key_char(x[0]) + escape_key(x.drop_first()),
    decreases x.len(),
{
    if x.len() == 1 {
        assert(x.drop_last() =~= Seq::<char>::empty());
        assert(x.drop_first() =~= Seq::<char>::empty());
        assert(escape_key(x) =~= escape_key_char(x[0]) + escape_key(x.drop_first()));
    } else {
        lemma_escape_key_front(x.drop_last());
        assert(x.drop_last().drop_first() =~= x.drop_first().drop_last());
        assert(x.drop_first().last() == x.last());
        assert(escape_key(x) =~= escape_key_char(x[0]) + escape_key(x.drop_first()));
    }
}

/// A written string value, then its closing quote, reads back as the string.
proof fn lemma_read_string(s: Seq<char>, i: int, acc: Seq<char>, x: Seq<char>)
    requires
        stands_at(s, i, escape_string(x) + seq!['"']),
        forall|k: int| 0 <= k < x.len() ==> #[trigger] x[k] != '\0',
    ensures
        string_body(s, i, '"', acc) == Scan::Done(acc + x, i + escape_string(x).len() + 1),
    decreases x.len(),
{
    if x.len() == 0 {
        assert(escape_string(x) =~= Seq::<char>::empty());
        lemma_stands_at_char(s, i, escape_string(x) + seq!['"'], 0);
        assert(acc + x =~= acc);
    } else {
        lemma_escape_string_front(x);
        let c = x[0];
        let e = escape_char(c);
        let rest = x.drop_first();
        let whole = escape_string(x) + seq!['"'];
        assert(whole =~= e + (escape_string(rest) + seq!['"']));
        lemma_split(s, i, e, escape_string(rest) + seq!['"']);
        assert forall|k: int| 0 <= k < rest.len() implies #[trigger] rest[k] != '\0' by {
            assert(rest[k] == x[k + 1]);
        }
        lemma_stands_at_char(s, i, e, 0);
        if e.len() == 2 {
            lemma_stands_at_char(s, i, e, 1);
            lemma_read_string(s, i + 2, acc + seq![c], rest);
        } else {
            lemma_read_string(s, i + 1, acc.push(c), rest);
            assert(acc.push(c) =~= acc + seq![c]);
        }
        assert(acc + seq![c] + rest =~= acc + x);
    }
}

/// A written key, then its closing quote, reads back as the key.
proof fn lemma_read_key(s: Seq<char>, i: int, acc: Seq<char>, x: Seq<char>)
    requires
        stands_at(s, i, escape_key(x) + seq!['"']),
    ensures
        string_body(s, i, '"', acc) == Scan::Done(acc + x, i + escape_key(x).len() + 1),
    decreases x.len(),
{
    if x.len() == 0 {
        assert(escape_key(x) =~= Seq::<char>::empty());
        lemma_stands_at_char(s, i, escape_key(x) + seq!['"'], 0);
        assert(acc + x =~= acc);
    } else {
        lemma_escape_key_front(x);
        let c = x[0];
        let e = escape_key_char(c);
        let rest = x.drop_first();
        let whole = escape_key(x) + seq!['"'];
        assert(whole =~= e + (escape_key(rest) + seq!['"']));
        lemma_split(s, i, e, escape_key(rest) + seq!['"']);
        lemma_stands_at_char(s, i, e, 0);
        if e.len() == 2 {
            lemma_stands_at_char(s, i, e, 1);
            lemma_read_key(s, i + 2, acc + seq![c], rest);
        } else {
            lemma_read_key(s, i + 1, acc.push(c), rest);
            assert(acc.push(c) =~= acc + seq![c]);
        }
        assert(acc + seq![c] + rest =~= acc + x);
    }
}

} // verus!

verus! {

/// `t` is a decimal literal the reader reads back whole: an optional `-`, then
/// digits with exactly one `.` (at `d`), at least one digit, and a digit first
/// when there is no `-`.
proof fn lemma_number_end_run(s: Seq<char>, j: int, dot: bool, e: int, d: int)
    requires
        0 <= j <= e < s.len(),
        forall|k: int| j <= k < e ==> is_digit(#[trigger] s[k]) || (k == d && s[k] == '.'),
        dot ==> !(j <= d < e),
        !is_digit(s[e]),
        s[e] != '.',
    ensures
        number_end(s, j, dot) == e,
    decreases e - j,
{
    if j < e {
        if is_digit(s[j]) {
            lemma_number_end_run(s, j + 1, dot, e, d);
        } else {
            assert(j == d && s[j] == '.');
            lemma_number_end_run(s, j + 1, true, e, d);
        }
    }
}

/// A written integer reads back as that integer.
proof fn lemma_read_int(s: Seq<char>, i: int, v: i64)
    requires
        stands_at(s, i, int_decimal(v as int)),
        i + int_decimal(v as int).len() < s.len(),
        !is_digit(s[i + int_decimal(v as int).len()]),
        s[i + int_decimal(v as int).len()] != '.',
    ensures
        number_at(s, i) == Scan::Done(NumLit::Int(v), i + int_decimal(v as int).len()),
{
    let t = int_decimal(v as int);
    let e = i + t.len();
    lemma_int_decimal_parses(v);
    assert forall|k: int| 0 <= k < t.len() implies s[i + k] == t[k] by {
        lemma_stands_at_char(s, i, t, k);
    }
    let b = number_start(s, i);
    if v < 0 {
        assert(s[i] == '-');
        assert(b == i + 1);
    } else {
        assert(is_digit(s[i]));
        assert(b == i);
    }
    assert forall|k: int| b <= k < e implies is_digit(#[trigger] s[k]) || (k == -1 && s[k] == '.') by {
        assert(s[k] == t[k - i]);
    }
    lemma_number_end_run(s, b, false, e, -1);
    assert(s.subrange(b, e)[0] == s[b]);
    assert(is_digit(s.subrange(b, e)[0]));
    assert(!has_dot(s.subrange(b, e))) by {
        if has_dot(s.subrange(b, e)) {
            let k = choose|k: int| 0 <= k < s.subrange(b, e).len() && #[trigger] s.subrange(b, e)[k] == '.';
            assert(s.subrange(b, e)[k] == s[b + k]);
        }
    }
    assert(s.subrange(i, e) == t);
}

/// A written decimal literal reads back as that literal.
proof fn lemma_read_float(s: Seq<char>, i: int, t: Seq<char>)
    requires
        float_literal(t),
        stands_at(s, i, t),
        i + t.len() < s.len(),
        !is_digit(s[i + t.len()]),
        s[i + t.len()] != '.',
    ensures
        number_at(s, i) == Scan::Done(NumLit::Float(t), i + t.len()),
{
    let d = choose|d: int| float_shape(t, d);
    let e = i + t.len();
    assert forall|k: int| 0 <= k < t.len() implies s[i + k] == t[k] by {
        lemma_stands_at_char(s, i, t, k);
    }
    let b = number_start(s, i);
    let tb: int = if t.len() > 0 && t[0] == '-' {
        1
    } else {
        0
    };
    assert(b == i + tb);
    assert forall|k: int| b <= k < e implies is_digit(#[trigger] s[k]) || (k == i + d && s[k]
        == '.') by {
        assert(s[k] == t[k - i]);
    }
    lemma_number_end_run(s, b, false, e, i + d);
    let sub = s.subrange(b, e);
    if tb < d {
        assert(sub[0] == s[b]);
        assert(s[b] == t[tb]);
        assert(is_digit(sub[0]));
    } else {
        assert(sub[d + 1 - tb] == s[i + d + 1]);
        assert(s[i + d + 1] == t[d + 1]);
        assert(is_digit(sub[d + 1 - tb]));
    }
    assert(sub[d - tb] == s[i + d]);
    assert(sub[d - tb] == '.');
    assert(s.subrange(i, e) == t);
}

proof fn lemma_ident_run(s: Seq<char>, j: int, e: int)
    requires
        0 <= j <= e < s.len(),
        forall|k: int| j <= k < e ==> word_char(#[trigger] s[k]),
        !word_char(s[e]),
        s[e] != '_',
    ensures
        ident_end(s, j) == e,
    decreases e - j,
{
    if j < e {
        lemma_ident_run(s, j + 1, e);
    }
}

} // verus!

verus! {

/// A value that the writer writes and the reader reads back unchanged: strings
/// without NUL, decimal literals of finite numbers (every one below 10^308 among
/// them), arrays that
/// are not empty (an
/// empty array is written `{}`, which reads as an empty table) and shorter than
/// `i64::MAX`, and tables with keys in ascending order.
pub open spec fn writable(v: Model) -> bool
    decreases v,
{
    match v {
        Model::Float(t) => float_literal(t) && (short_float_literal(t) || float_json_text(t) is Some),
        Model::Str(x) => forall|k: int| 0 <= k < x.len() ==> #[trigger] x[k] != '\0',
        Model::Array(a) => 0 < a.len() < 0x7fff_ffff_ffff_ffff && forall|k: int|
            0 <= k < a.len() ==> writable(#[trigger] a[k]),
        Model::Object(o) => keys_sorted(o) && forall|k: int|
            0 <= k < o.len() ==> writable(#[trigger] o[k].1),
        _ => true,
    }
}

spec fn all_tabs(pad: Seq<char>) -> bool {
    forall|k: int| 0 <= k < pad.len() ==> #[trigger] pad[k] == '\t'
}

/// The table state after reading the first `m` elements of a written array.
spec fn arr_state(a: Seq<Model>, m: nat) -> TState
    decreases m,
{
    if m == 0 {
        table_start()
    } else {
        let prev = arr_state(a, (m - 1) as nat);
        TState {
            map: obj_insert(prev.map, int_decimal(m as int), a[m - 1]),
            ents: prev.ents.push((m as i64, a[m - 1])),
            pure: true,
            auto: (m + 1) as i64,
        }
    }
}

/// The table state after reading the first `m` entries of a written table.
spec fn obj_state(o: Seq<(Seq<char>, Model)>, m: nat) -> TState {
    TState { map: o.take(m as int), ents: seq![], pure: m == 0, auto: 1 }
}

proof fn lemma_arr_state(a: Seq<Model>, m: nat)
    requires
        m <= a.len(),
        a.len() < 0x7fff_ffff_ffff_ffff,
    ensures
        arr_state(a, m).ents == Seq::new(m, |k: int| ((k + 1) as i64, a[k])),
        arr_state(a, m).pure,
        arr_state(a, m).auto == m + 1,
    decreases m,
{
    if m > 0 {
        lemma_arr_state(a, (m - 1) as nat);
        assert(arr_state(a, m).ents =~= Seq::new(m, |k: int| ((k + 1) as i64, a[k])));
    }
}

proof fn lemma_ent_index_positions(ents: Seq<(i64, Model)>, p: int, q: int)
    requires
        0 <= q <= p < ents.len(),
        forall|k: int| 0 <= k < ents.len() ==> #[trigger] ents[k].0 == k + 1,
    ensures
        ent_index(ents, p + 1, q) == p,
    decreases p - q,
{
    if q < p {
        lemma_ent_index_positions(ents, p, q + 1);
    }
}

proof fn lemma_lower_bound_end(o: Seq<(Seq<char>, Model)>, k: Seq<char>, j: int)
    requires
        0 <= j <= o.len(),
        forall|q: int| 0 <= q < o.len() ==> seq_lt(#[trigger] o[q].0, k),
    ensures
        lower_bound_from(o, k, j) == o.len(),
    decreases o.len() - j,
{
    if j < o.len() {
        lemma_lower_bound_end(o, k, j + 1);
    }
}

/// Inserting the entries of ordered keys one after another rebuilds them.
proof fn lemma_insert_next(o: Seq<(Seq<char>, Model)>, m: int)
    requires
        keys_sorted(o),
        0 <= m < o.len(),
    ensures
        obj_insert(o.take(m), o[m].0, o[m].1) == o.take(m + 1),
{
    let t = o.take(m);
    assert forall|q: int| 0 <= q < t.len() implies seq_lt(#[trigger] t[q].0, o[m].0) by {
        assert(t[q] == o[q]);
    }
    lemma_lower_bound_end(t, o[m].0, 0);
    assert(t.insert(m, (o[m].0, o[m].1)) =~= o.take(m + 1));
}

proof fn lemma_items_prefix(s: Seq<char>, j: int, a: Seq<Model>, pad: Seq<char>, m: nat, n: nat)
    requires
        m <= n <= a.len(),
        stands_at(s, j, render_items(a, pad, n)),
    ensures
        stands_at(s, j, render_items(a, pad, m)),
    decreases n - m,
{
    if m < n {
        let p2 = pad.push('\t');
        let item = p2 + "["@ + nat_decimal(n) + "] = "@ + render(a[n - 1], p2) + ",\n"@;
        assert(render_items(a, pad, n) =~= render_items(a, pad, (n - 1) as nat) + item);
        lemma_split(s, j, render_items(a, pad, (n - 1) as nat), item);
        lemma_items_prefix(s, j, a, pad, m, (n - 1) as nat);
    }
}

proof fn lemma_entries_prefix(
    s: Seq<char>,
    j: int,
    o: Seq<(Seq<char>, Model)>,
    pad: Seq<char>,
    m: nat,
    n: nat,
)
    requires
        m <= n <= o.len(),
        stands_at(s, j, render_entries(o, pad, n)),
    ensures
        stands_at(s, j, render_entries(o, pad, m)),
    decreases n - m,
{
    if m < n {
        let p2 = pad.push('\t');
        let item = p2 + "[\""@ + escape_key(o[n - 1].0) + "\"] = "@ + render(o[n - 1].1, p2)
            + ",\n"@;
        assert(render_entries(o, pad, n) =~= render_entries(o, pad, (n - 1) as nat) + item);
        lemma_split(s, j, render_entries(o, pad, (n - 1) as nat), item);
        lemma_entries_prefix(s, j, o, pad, m, (n - 1) as nat);
    }
}

} // verus!

verus! {

proof fn lemma_reveal_pieces()
    ensures
        "{\n"@ == seq!['{', '\n'],
        "}"@ == seq!['}'],
        "{}"@ == seq!['{', '}'],
        "["@ == seq!['['],
        "] = "@ == seq![']', ' ', '=', ' '],
        ",\n"@ == seq![',', '\n'],
        "[\""@ == seq!['[', '"'],
        "\"] = "@ == seq!['"', ']', ' ', '=', ' '],
        "nil"@ == seq!['n', 'i', 'l'],
        "true"@ == seq!['t', 'r', 'u', 'e'],
        "false"@ == seq!['f', 'a', 'l', 's', 'e'],
        " = "@ == seq![' ', '=', ' '],
        "\n"@ == seq!['\n'],
{
    reveal_strlit("{\n");
    reveal_strlit("}");
    reveal_strlit("{}");
    reveal_strlit("[");
    reveal_strlit("] = ");
    reveal_strlit(",\n");
    reveal_strlit("[\"");
    reveal_strlit("\"] = ");
    reveal_strlit("nil");
    reveal_strlit("true");
    reveal_strlit("false");
    reveal_strlit(" = ");
    reveal_strlit("\n");
}

/// The text of a written array or table that is not empty ends its lines of
/// entries with a line break.
proof fn lemma_items_end_newline(a: Seq<Model>, pad: Seq<char>, m: nat)
    requires
        0 < m <= a.len(),
    ensures
        render_items(a, pad, m).len() > 0,
        render_items(a, pad, m).last() == '\n',
{
    lemma_reveal_pieces();
    let p2 = pad.push('\t');
    let x = render_items(a, pad, (m - 1) as nat) + p2 + "["@ + nat_decimal(m) + "] = "@ + render(
        a[m - 1],
        p2,
    );
    assert(render_items(a, pad, m) == x + ",\n"@);
}

proof fn lemma_entries_end_newline(o: Seq<(Seq<char>, Model)>, pad: Seq<char>, m: nat)
    requires
        0 < m <= o.len(),
    ensures
        render_entries(o, pad, m).len() > 0,
        render_entries(o, pad, m).last() == '\n',
{
    lemma_reveal_pieces();
    let p2 = pad.push('\t');
    let x = render_entries(o, pad, (m - 1) as nat) + p2 + "[\""@ + escape_key(o[m - 1].0)
        + "\"] = "@ + render(o[m - 1].1, p2);
    assert(render_entries(o, pad, m) == x + ",\n"@);
}

/// A written value that is not a table, after white space from `w`, reads back.
#[verifier::spinoff_prover]
#[verifier::rlimit(40)]
proof fn lemma_read_scalar(s: Seq<char>, w: int, i: int, v: Model, pad: Seq<char>)
    requires
        writable(v),
        !(v is Array),
        !(v is Object),
        0 <= w <= i,
        forall|k: int| w <= k < i ==> is_white(#[trigger] s[k]),
        stands_at(s, i, render(v, pad)),
        i + render(v, pad).len() < s.len(),
        s[i + render(v, pad).len()] == ',' || s[i + render(v, pad).len()] == '\n',
    ensures
        value_at(s, w) == Scan::Done(v, i + render(v, pad).len()),
{
    lemma_reveal_pieces();
    let r = render(v, pad);
    let e = i + r.len();
    match v {
        Model::Null => {
            lemma_stands_at_char(s, i, r, 0);
            lemma_stands_at_char(s, i, r, 1);
            lemma_stands_at_char(s, i, r, 2);
            lemma_skip_to(s, w, i);
            lemma_ident_run(s, i, e);
            assert(s.subrange(i, e) == r);
        },
        Model::Bool(b) => {
            lemma_stands_at_char(s, i, r, 0);
            lemma_stands_at_char(s, i, r, 1);
            lemma_stands_at_char(s, i, r, 2);
            lemma_stands_at_char(s, i, r, 3);
            if !b {
                lemma_stands_at_char(s, i, r, 4);
            }
            lemma_skip_to(s, w, i);
            lemma_ident_run(s, i, e);
            assert(s.subrange(i, e) == r);
        },
        Model::Int(x) => {
            lemma_int_decimal_parses(x);
            lemma_stands_at_char(s, i, r, 0);
            if r.len() > 1 {
                lemma_stands_at_char(s, i, r, 1);
            }
            lemma_skip_to(s, w, i);
            lemma_read_int(s, i, x);
        },
        Model::Float(t) => {
            let d = choose|d: int| float_shape(t, d);
            lemma_stands_at_char(s, i, r, 0);
            if r.len() > 1 {
                lemma_stands_at_char(s, i, r, 1);
                assert(is_digit(t[1]) || t[1] == '.');
            }
            lemma_skip_to(s, w, i);
            lemma_read_float(s, i, t);
        },
        Model::Str(x) => {
            let body = escape_string(x) + seq!['"'];
            assert(r == seq!['"'] + body);
            lemma_split(s, i, seq!['"'], body);
            lemma_stands_at_char(s, i, r, 0);
            lemma_stands_at_char(s, i, r, 1);
            if x.len() > 0 {
                lemma_escape_string_front(x);
                assert(r[1] == escape_char(x[0])[0]);
            }
            lemma_skip_to(s, w, i);
            lemma_read_string(s, i + 1, seq![], x);
            assert(seq![] + x =~= x);
        },
        _ => {},
    }
}

/// A written value, after white space from `w`, reads back as the value.
#[verifier::spinoff_prover]
#[verifier::rlimit(40)]
proof fn lemma_read_value(s: Seq<char>, w: int, i: int, v: Model, pad: Seq<char>)
    requires
        writable(v),
        all_tabs(pad),
        0 <= w <= i,
        forall|k: int| w <= k < i ==> is_white(#[trigger] s[k]),
        stands_at(s, i, render(v, pad)),
        i + render(v, pad).len() < s.len(),
        s[i + render(v, pad).len()] == ',' || s[i + render(v, pad).len()] == '\n',
    ensures
        value_at(s, w) == Scan::Done(v, i + render(v, pad).len()),
    decreases v, 2nat,
{
    match v {
        Model::Array(a) => {
            lemma_reveal_pieces();
            let r = render(v, pad);
            let n = a.len();
            lemma_stands_at_char(s, i, r, 0);
            lemma_stands_at_char(s, i, r, 1);
            lemma_skip_to(s, w, i);
            lemma_skip_to(s, i, i);
            lemma_array_items(s, i, a, pad, n);
            lemma_array_close(s, i, a, pad);
        },
        Model::Object(o) => {
            lemma_reveal_pieces();
            let r = render(v, pad);
            let n = o.len();
            lemma_stands_at_char(s, i, r, 0);
            lemma_stands_at_char(s, i, r, 1);
            lemma_skip_to(s, w, i);
            lemma_skip_to(s, i, i);
            if n == 0 {
                lemma_skip_to(s, i + 1, i + 1);
                assert(o =~= seq![]);
                assert(table_start().map =~= o);
            } else {
                lemma_object_items(s, i, o, pad, n);
                lemma_object_close(s, i, o, pad);
            }
        },
        _ => {
            lemma_read_scalar(s, w, i, v, pad);
        },
    }
}

/// One turn of reading a table: skip to an entry, read it, record it, skip a comma.
proof fn lemma_loop_step(s: Seq<char>, p: int, q: int, st: TState, key: TKey, v: Model, k6: int, st2: TState)
    requires
        0 <= p <= s.len(),
        skip_space(s, p) == Some(q),
        q < s.len(),
        s[q] != '}',
        entry_at(s, q) == Scan::Done((key, v), k6),
        table_add(st, key, v) == Some(st2),
        0 <= k6 < s.len(),
        skip_space(s, k6) == Some(k6),
        s[k6] == ',',
        k6 + 1 > p,
    ensures
        table_loop(s, p, st) == table_loop(s, k6 + 1, st2),
{
}

/// Reading an entry `[key] = value` from its `[`.
proof fn lemma_bracket_entry(s: Seq<char>, q: int, key: TKey, k2: int, v: Model, k6: int)
    requires
        0 <= q < s.len(),
        s[q] == '[',
        skip_space(s, q) == Some(q),
        skip_space(s, q + 1) == Some(q + 1),
        bracket_key_at(s, q + 1) == Scan::Done(key, k2),
        expect_at(s, k2, ']') == Scan::Done((), k2 + 1),
        skip_space(s, k2 + 1) == Some(k2 + 2),
        expect_at(s, k2 + 2, '=') == Scan::Done((), k2 + 3),
        value_at(s, k2 + 3) == Scan::Done(v, k6),
    ensures
        entry_at(s, q) == Scan::Done((key, v), k6),
{
    assert(bracket_entry_at(s, q) == Scan::Done((key, v), k6));
}

/// Reading `] = value` from its `]`.
proof fn lemma_entry_tail(s: Seq<char>, k2: int, v: Model, p2: Seq<char>)
    requires
        writable(v),
        all_tabs(p2),
        0 <= k2,
        stands_at(s, k2, "] = "@ + render(v, p2)),
        k2 + 4 + render(v, p2).len() < s.len(),
        s[k2 + 4 + render(v, p2).len()] == ',',
    ensures
        expect_at(s, k2, ']') == Scan::Done((), k2 + 1),
        skip_space(s, k2 + 1) == Some(k2 + 2),
        expect_at(s, k2 + 2, '=') == Scan::Done((), k2 + 3),
        value_at(s, k2 + 3) == Scan::Done(v, k2 + 4 + render(v, p2).len()),
    decreases v, 3nat,
{
    lemma_reveal_pieces();
    lemma_split(s, k2, "] = "@, render(v, p2));
    lemma_stands_at_char(s, k2, "] = "@, 0);
    lemma_stands_at_char(s, k2, "] = "@, 1);
    lemma_stands_at_char(s, k2, "] = "@, 2);
    lemma_stands_at_char(s, k2, "] = "@, 3);
    lemma_skip_to(s, k2, k2);
    lemma_skip_to(s, k2 + 1, k2 + 2);
    lemma_skip_to(s, k2 + 2, k2 + 2);
    lemma_read_value(s, k2 + 3, k2 + 4, v, p2);
}

/// Reading the first `m` elements of a written array.
proof fn lemma_array_items(s: Seq<char>, i: int, a: Seq<Model>, pad: Seq<char>, m: nat)
    requires
        all_tabs(pad),
        0 < a.len() < 0x7fff_ffff_ffff_ffff,
        forall|k: int| 0 <= k < a.len() ==> writable(#[trigger] a[k]),
        m <= a.len(),
        stands_at(s, i, "{\n"@ + render_items(a, pad, a.len()) + pad + "}"@),
        i + ("{\n"@ + render_items(a, pad, a.len()) + pad + "}"@).len() < s.len(),
    ensures
        table_loop(s, i + 1, table_start()) == table_loop(
            s,
            i + 1 + render_items(a, pad, m).len(),
            arr_state(a, m),
        ),
    decreases a, m + 1,
{
    if m > 0 {
        lemma_array_items(s, i, a, pad, (m - 1) as nat);
        lemma_array_item(s, i, a, pad, (m - 1) as nat);
    }
}

/// Reading one element of a written array.
proof fn lemma_array_item(s: Seq<char>, i: int, a: Seq<Model>, pad: Seq<char>, m: nat)
    requires
        all_tabs(pad),
        0 < a.len() < 0x7fff_ffff_ffff_ffff,
        forall|k: int| 0 <= k < a.len() ==> writable(#[trigger] a[k]),
        m < a.len(),
        stands_at(s, i, "{\n"@ + render_items(a, pad, a.len()) + pad + "}"@),
        i + ("{\n"@ + render_items(a, pad, a.len()) + pad + "}"@).len() < s.len(),
    ensures
        table_loop(s, i + 1 + render_items(a, pad, m).len(), arr_state(a, m)) == table_loop(
            s,
            i + 1 + render_items(a, pad, m + 1).len(),
            arr_state(a, m + 1),
        ),
    decreases a, 0nat,
{
    let p2 = pad.push('\t');
    let d = nat_decimal(m + 1);
    let rm = render(a[m as int], p2);
    let q0 = i + 2 + render_items(a, pad, m).len();
    let q = q0 + p2.len();
    let k2 = q + 1 + d.len();
    let k6 = k2 + 4 + rm.len();
    lemma_array_item_layout(s, i, a, pad, m);
    assert(all_tabs(p2));
    lemma_entry_tail(s, k2, a[m as int], p2);
    lemma_array_item_walk(s, q0, a[m as int], p2, m);
}

#[verifier::spinoff_prover]
#[verifier::rlimit(40)]
proof fn lemma_array_item_walk(s: Seq<char>, q0: int, v: Model, p2: Seq<char>, m: nat)
    requires
        m < 0x7fff_ffff_ffff_ffff - 1,
        1 <= q0,
        s[q0 - 1] == '\n',
        forall|t: int| q0 <= t < q0 + p2.len() ==> #[trigger] s[t] == '\t',
        s[q0 + p2.len()] == '[',
        stands_at(s, q0 + p2.len() + 1, nat_decimal(m + 1)),
        s[q0 + p2.len() + 1 + nat_decimal(m + 1).len()] == ']',
        q0 + p2.len() + 1 + nat_decimal(m + 1).len() + 4 + render(v, p2).len() + 1 < s.len(),
        ({
            let k2 = q0 + p2.len() + 1 + nat_decimal(m + 1).len();
            let k6 = k2 + 4 + render(v, p2).len();
            &&& expect_at(s, k2, ']') == Scan::Done((), k2 + 1)
            &&& skip_space(s, k2 + 1) == Some(k2 + 2)
            &&& expect_at(s, k2 + 2, '=') == Scan::Done((), k2 + 3)
            &&& value_at(s, k2 + 3) == Scan::Done(v, k6)
            &&& s[k6] == ','
            &&& s[k6 + 1] == '\n'
        }),
    ensures
        ({
            let k6 = q0 + p2.len() + 1 + nat_decimal(m + 1).len() + 4 + render(v, p2).len();
            forall|a: Seq<Model>|
                m < a.len() && a.len() < 0x7fff_ffff_ffff_ffff && #[trigger] a[m as int] == v
                    ==> table_loop(s, q0 - 1, arr_state(a, m)) == table_loop(
                    s,
                    k6 + 1,
                    arr_state(a, m + 1),
                )
        }),
{
    let q = q0 + p2.len();
    let d = nat_decimal(m + 1);
    let k2 = q + 1 + d.len();
    let k6 = k2 + 4 + render(v, p2).len();
    lemma_nat_decimal(m + 1);
    lemma_stands_at_char(s, q + 1, d, 0);
    if d.len() > 1 {
        lemma_stands_at_char(s, q + 1, d, 1);
    }
    assert forall|t: int| q0 - 1 <= t < q implies is_white(#[trigger] s[t]) by {
        if t >= q0 {
            assert(s[t] == '\t');
        }
    }
    lemma_skip_to(s, q0 - 1, q);
    lemma_skip_to(s, q, q);
    lemma_skip_to(s, q + 1, q + 1);
    assert(int_decimal((m + 1) as i64 as int) == d);
    lemma_read_int(s, q + 1, (m + 1) as i64);
    assert(bracket_key_at(s, q + 1) == Scan::Done(TKey::Index((m + 1) as i64), k2));
    lemma_skip_to(s, k6, k6);
    lemma_bracket_entry(s, q, TKey::Index((m + 1) as i64), k2, v, k6);
    assert forall|a: Seq<Model>|
        m < a.len() && a.len() < 0x7fff_ffff_ffff_ffff && #[trigger] a[m as int] == v implies table_loop(
            s,
            q0 - 1,
            arr_state(a, m),
        ) == table_loop(s, k6 + 1, arr_state(a, m + 1)) by {
        lemma_arr_state(a, m);
        assert(table_add(arr_state(a, m), TKey::Index((m + 1) as i64), v) == Some(
            arr_state(a, m + 1),
        ));
        lemma_loop_step(
            s,
            q0 - 1,
            q,
            arr_state(a, m),
            TKey::Index((m + 1) as i64),
            v,
            k6,
            arr_state(a, m + 1),
        );
    }
}

/// Where the parts of an array element's line stand in the text.
#[verifier::spinoff_prover]
#[verifier::rlimit(40)]
proof fn lemma_array_item_layout(s: Seq<char>, i: int, a: Seq<Model>, pad: Seq<char>, m: nat)
    requires
        all_tabs(pad),
        m < a.len(),
        stands_at(s, i, "{\n"@ + render_items(a, pad, a.len()) + pad + "}"@),
        i + ("{\n"@ + render_items(a, pad, a.len()) + pad + "}"@).len() < s.len(),
    ensures
        ({
            let p2 = pad.push('\t');
            let d = nat_decimal(m + 1);
            let rm = render(a[m as int], p2);
            let q0 = i + 2 + render_items(a, pad, m).len();
            let q = q0 + p2.len();
            let k2 = q + 1 + d.len();
            let k6 = k2 + 4 + rm.len();
            &&& s[q0 - 1] == '\n'
            &&& forall|t: int| q0 <= t < q ==> #[trigger] s[t] == '\t'
            &&& s[q] == '['
            &&& stands_at(s, q + 1, d)
            &&& stands_at(s, k2, "] = "@ + rm)
            &&& s[k2] == ']'
            &&& s[k6] == ','
            &&& s[k6 + 1] == '\n'
            &&& k6 + 1 == i + 1 + render_items(a, pad, m + 1).len()
            &&& k6 + 1 < s.len()
        }),
{
    lemma_reveal_pieces();
    let n = a.len();
    let ri = render_items(a, pad, n);
    lemma_split(s, i, "{\n"@ + ri + pad, "}"@);
    lemma_split(s, i, "{\n"@ + ri, pad);
    lemma_split(s, i, "{\n"@, ri);
    lemma_items_prefix(s, i + 2, a, pad, m + 1, n);
    let p2 = pad.push('\t');
    let d = nat_decimal(m + 1);
    let rm = render(a[m as int], p2);
    let item = p2 + "["@ + d + "] = "@ + rm + ",\n"@;
    assert(render_items(a, pad, m + 1) == render_items(a, pad, m) + item);
    let q0 = i + 2 + render_items(a, pad, m).len();
    lemma_split(s, i + 2, render_items(a, pad, m), item);
    if m == 0 {
        lemma_stands_at_char(s, i, "{\n"@, 1);
    } else {
        lemma_items_prefix(s, i + 2, a, pad, m, n);
        lemma_items_end_newline(a, pad, m);
        lemma_stands_at_char(s, i + 2, render_items(a, pad, m), render_items(a, pad, m).len() - 1);
    }
    let q = q0 + p2.len();
    let k2 = q + 1 + d.len();
    let k6 = k2 + 4 + rm.len();
    assert(item =~= p2 + "["@ + d + ("] = "@ + rm) + ",\n"@);
    lemma_split(s, q0, p2 + "["@ + d + ("] = "@ + rm), ",\n"@);
    lemma_split(s, q0, p2 + "["@ + d, "] = "@ + rm);
    lemma_split(s, q0, p2 + "["@, d);
    lemma_split(s, q0, p2, "["@);
    assert forall|t: int| q0 <= t < q implies #[trigger] s[t] == '\t' by {
        lemma_stands_at_char(s, q0, p2, t - q0);
    }
    lemma_stands_at_char(s, q, "["@, 0);
    lemma_stands_at_char(s, k2, "] = "@ + rm, 0);
    lemma_stands_at_char(s, k6, ",\n"@, 0);
    lemma_stands_at_char(s, k6, ",\n"@, 1);
}

/// After the elements of a written array, its closing brace.
proof fn lemma_array_close(s: Seq<char>, i: int, a: Seq<Model>, pad: Seq<char>)
    requires
        all_tabs(pad),
        0 < a.len() < 0x7fff_ffff_ffff_ffff,
        stands_at(s, i, "{\n"@ + render_items(a, pad, a.len()) + pad + "}"@),
        i + ("{\n"@ + render_items(a, pad, a.len()) + pad + "}"@).len() < s.len(),
        s[i + ("{\n"@ + render_items(a, pad, a.len()) + pad + "}"@).len()] == ','
            || s[i + ("{\n"@ + render_items(a, pad, a.len()) + pad + "}"@).len()] == '\n',
    ensures
        table_loop(s, i + 1 + render_items(a, pad, a.len()).len(), arr_state(a, a.len()))
            == Scan::Done(
            Model::Array(a),
            i + ("{\n"@ + render_items(a, pad, a.len()) + pad + "}"@).len(),
        ),
{
    lemma_reveal_pieces();
    let n = a.len();
    let ri = render_items(a, pad, n);
    lemma_split(s, i, "{\n"@ + ri + pad, "}"@);
    lemma_split(s, i, "{\n"@ + ri, pad);
    lemma_split(s, i, "{\n"@, ri);
    lemma_items_end_newline(a, pad, n);
    lemma_stands_at_char(s, i + 2, ri, ri.len() - 1);
    let p = i + 1 + ri.len();
    let c = p + 1 + pad.len();
    assert forall|t: int| p <= t < c implies is_white(#[trigger] s[t]) by {
        if t > p {
            lemma_stands_at_char(s, p + 1, pad, t - p - 1);
        }
    }
    lemma_stands_at_char(s, c, "}"@, 0);
    lemma_skip_to(s, p, c);
    lemma_arr_state(a, n);
    let ents = arr_state(a, n).ents;
    assert forall|p2: int| 1 <= p2 <= n implies #[trigger] key_present(ents, p2) by {
        assert(ents[p2 - 1].0 == p2);
    }
    assert(keys_are_positions(ents));
    assert forall|k: int| 0 <= k < n implies #[trigger] entries_array(ents)[k] == a[k] by {
        lemma_ent_index_positions(ents, k, 0);
    }
    assert(entries_array(ents) =~= a);
}

/// Reading the first `m` entries of a written table.
proof fn lemma_object_items(s: Seq<char>, i: int, o: Seq<(Seq<char>, Model)>, pad: Seq<char>, m: nat)
    requires
        all_tabs(pad),
        0 < o.len(),
        keys_sorted(o),
        forall|k: int| 0 <= k < o.len() ==> writable(#[trigger] o[k].1),
        m <= o.len(),
        stands_at(s, i, "{\n"@ + render_entries(o, pad, o.len()) + pad + "}"@),
        i + ("{\n"@ + render_entries(o, pad, o.len()) + pad + "}"@).len() < s.len(),
    ensures
        table_loop(s, i + 1, table_start()) == table_loop(
            s,
            i + 1 + render_entries(o, pad, m).len(),
            obj_state(o, m),
        ),
    decreases o, m + 1,
{
    if m > 0 {
        lemma_object_items(s, i, o, pad, (m - 1) as nat);
        lemma_object_item(s, i, o, pad, (m - 1) as nat);
    } else {
        assert(obj_state(o, 0).map =~= table_start().map);
        assert(obj_state(o, 0) == table_start());
    }
}

/// Reading one entry of a written table.
proof fn lemma_object_item(s: Seq<char>, i: int, o: Seq<(Seq<char>, Model)>, pad: Seq<char>, m: nat)
    requires
        all_tabs(pad),
        0 < o.len(),
        keys_sorted(o),
        forall|k: int| 0 <= k < o.len() ==> writable(#[trigger] o[k].1),
        m < o.len(),
        stands_at(s, i, "{\n"@ + render_entries(o, pad, o.len()) + pad + "}"@),
        i + ("{\n"@ + render_entries(o, pad, o.len()) + pad + "}"@).len() < s.len(),
    ensures
        table_loop(s, i + 1 + render_entries(o, pad, m).len(), obj_state(o, m)) == table_loop(
            s,
            i + 1 + render_entries(o, pad, m + 1).len(),
            obj_state(o, m + 1),
        ),
    decreases o, 0nat,
{
    let p2 = pad.push('\t');
    let key = o[m as int].0;
    let ek = escape_key(key);
    let rm = render(o[m as int].1, p2);
    let q0 = i + 2 + render_entries(o, pad, m).len();
    let q = q0 + p2.len();
    let k2 = q + 2 + ek.len() + 1;
    lemma_object_item_layout(s, i, o, pad, m);
    assert(all_tabs(p2));
    assert(writable(o[m as int].1));
    lemma_entry_tail(s, k2, o[m as int].1, p2);
    lemma_insert_next(o, m as int);
    assert(table_add(obj_state(o, m), TKey::Name(key), o[m as int].1) == Some(obj_state(o, m + 1)));
    lemma_object_item_walk(s, q0, key, o[m as int].1, p2, obj_state(o, m), obj_state(o, m + 1));
}

#[verifier::spinoff_prover]
#[verifier::rlimit(40)]
proof fn lemma_object_item_walk(
    s: Seq<char>,
    q0: int,
    key: Seq<char>,
    v: Model,
    p2: Seq<char>,
    st: TState,
    st2: TState,
)
    requires
        table_add(st, TKey::Name(key), v) == Some(st2),
        1 <= q0,
        s[q0 - 1] == '\n',
        forall|t: int| q0 <= t < q0 + p2.len() ==> #[trigger] s[t] == '\t',
        s[q0 + p2.len()] == '[',
        stands_at(s, q0 + p2.len() + 1, seq!['"'] + escape_key(key) + seq!['"']),
        q0 + p2.len() + 3 + escape_key(key).len() + 4 + render(v, p2).len() + 1 < s.len(),
        ({
            let k2 = q0 + p2.len() + 3 + escape_key(key).len();
            let k6 = k2 + 4 + render(v, p2).len();
            &&& expect_at(s, k2, ']') == Scan::Done((), k2 + 1)
            &&& skip_space(s, k2 + 1) == Some(k2 + 2)
            &&& expect_at(s, k2 + 2, '=') == Scan::Done((), k2 + 3)
            &&& value_at(s, k2 + 3) == Scan::Done(v, k6)
            &&& s[k6] == ','
            &&& s[k6 + 1] == '\n'
        }),
    ensures
        ({
            let k6 = q0 + p2.len() + 3 + escape_key(key).len() + 4 + render(v, p2).len();
            table_loop(s, q0 - 1, st) == table_loop(s, k6 + 1, st2)
        }),
{
    let q = q0 + p2.len();
    let ek = escape_key(key);
    let k2 = q + 3 + ek.len();
    let k6 = k2 + 4 + render(v, p2).len();
    lemma_bracket_name(s, q, key);
    assert forall|t: int| q0 - 1 <= t < q implies is_white(#[trigger] s[t]) by {
        if t >= q0 {
            assert(s[t] == '\t');
        }
    }
    lemma_skip_to(s, q0 - 1, q);
    lemma_skip_to(s, q, q);
    lemma_skip_to(s, k6, k6);
    lemma_bracket_entry(s, q, TKey::Name(key), k2, v, k6);
    lemma_loop_step(s, q0 - 1, q, st, TKey::Name(key), v, k6, st2);
}

/// Reading a quoted table key `"key"` after its `[`.
proof fn lemma_bracket_name(s: Seq<char>, q: int, key: Seq<char>)
    requires
        0 <= q,
        stands_at(s, q + 1, seq!['"'] + escape_key(key) + seq!['"']),
    ensures
        skip_space(s, q + 1) == Some(q + 1),
        bracket_key_at(s, q + 1) == Scan::Done(TKey::Name(key), q + 3 + escape_key(key).len()),
{
    let ek = escape_key(key);
    let ks = q + 2;
    let k2 = q + 3 + ek.len();
    let qk = seq!['"'] + ek + seq!['"'];
    lemma_split(s, q + 1, seq!['"'] + ek, seq!['"']);
    lemma_split(s, q + 1, seq!['"'], ek);
    lemma_stands_at_char(s, q + 1, qk, 0);
    assert(s.subrange(ks, k2) =~= ek + seq!['"']) by {
        assert(s.subrange(ks, ks + ek.len()) == ek);
        lemma_stands_at_char(s, q + 1, qk, qk.len() - 1);
    }
    lemma_stands_at_char(s, q + 1, qk, 1);
    if key.len() > 0 {
        lemma_escape_key_front(key);
        assert(qk[1] == escape_key_char(key[0])[0]);
    } else {
        assert(ek =~= Seq::<char>::empty());
    }
    lemma_read_key(s, ks, seq![], key);
    assert(seq![] + key =~= key);
    lemma_skip_to(s, q + 1, q + 1);
}

/// Where the parts of a table entry's line stand in the text.
#[verifier::spinoff_prover]
#[verifier::rlimit(40)]
proof fn lemma_object_item_layout(s: Seq<char>, i: int, o: Seq<(Seq<char>, Model)>, pad: Seq<char>, m: nat)
    requires
        all_tabs(pad),
        m < o.len(),
        stands_at(s, i, "{\n"@ + render_entries(o, pad, o.len()) + pad + "}"@),
        i + ("{\n"@ + render_entries(o, pad, o.len()) + pad + "}"@).len() < s.len(),
    ensures
        ({
            let p2 = pad.push('\t');
            let ek = escape_key(o[m as int].0);
            let rm = render(o[m as int].1, p2);
            let q0 = i + 2 + render_entries(o, pad, m).len();
            let q = q0 + p2.len();
            let k2 = q + 3 + ek.len();
            let k6 = k2 + 4 + rm.len();
            &&& s[q0 - 1] == '\n'
            &&& forall|t: int| q0 <= t < q ==> #[trigger] s[t] == '\t'
            &&& s[q] == '['
            &&& stands_at(s, q + 1, seq!['"'] + ek + seq!['"'])
            &&& stands_at(s, k2, "] = "@ + rm)
            &&& s[k6] == ','
            &&& s[k6 + 1] == '\n'
            &&& k6 + 1 == i + 1 + render_entries(o, pad, m + 1).len()
            &&& k6 + 1 < s.len()
        }),
{
    lemma_reveal_pieces();
    let n = o.len();
    let re = render_entries(o, pad, n);
    lemma_split(s, i, "{\n"@ + re + pad, "}"@);
    lemma_split(s, i, "{\n"@ + re, pad);
    lemma_split(s, i, "{\n"@, re);
    lemma_entries_prefix(s, i + 2, o, pad, m + 1, n);
    let p2 = pad.push('\t');
    let key = o[m as int].0;
    let ek = escape_key(key);
    let rm = render(o[m as int].1, p2);
    let item = p2 + "[\""@ + ek + "\"] = "@ + rm + ",\n"@;
    assert(render_entries(o, pad, m + 1) == render_entries(o, pad, m) + item);
    let q0 = i + 2 + render_entries(o, pad, m).len();
    lemma_split(s, i + 2, render_entries(o, pad, m), item);
    if m == 0 {
        lemma_stands_at_char(s, i, "{\n"@, 1);
    } else {
        lemma_entries_prefix(s, i + 2, o, pad, m, n);
        lemma_entries_end_newline(o, pad, m);
        lemma_stands_at_char(
            s,
            i + 2,
            render_entries(o, pad, m),
            render_entries(o, pad, m).len() - 1,
        );
    }
    let q = q0 + p2.len();
    let k2 = q + 3 + ek.len();
    let k6 = k2 + 4 + rm.len();
    assert(item =~= p2 + seq!['['] + (seq!['"'] + ek + seq!['"']) + ("] = "@ + rm) + ",\n"@);
    lemma_split(s, q0, p2 + seq!['['] + (seq!['"'] + ek + seq!['"']) + ("] = "@ + rm), ",\n"@);
    lemma_split(s, q0, p2 + seq!['['] + (seq!['"'] + ek + seq!['"']), "] = "@ + rm);
    lemma_split(s, q0, p2 + seq!['['], seq!['"'] + ek + seq!['"']);
    lemma_split(s, q0, p2, seq!['[']);
    assert forall|t: int| q0 <= t < q implies #[trigger] s[t] == '\t' by {
        lemma_stands_at_char(s, q0, p2, t - q0);
    }
    lemma_stands_at_char(s, q, seq!['['], 0);
    lemma_stands_at_char(s, k6, ",\n"@, 0);
    lemma_stands_at_char(s, k6, ",\n"@, 1);
}

/// After the entries of a written table, its closing brace.
proof fn lemma_object_close(s: Seq<char>, i: int, o: Seq<(Seq<char>, Model)>, pad: Seq<char>)
    requires
        all_tabs(pad),
        0 < o.len(),
        stands_at(s, i, "{\n"@ + render_entries(o, pad, o.len()) + pad + "}"@),
        i + ("{\n"@ + render_entries(o, pad, o.len()) + pad + "}"@).len() < s.len(),
        s[i + ("{\n"@ + render_entries(o, pad, o.len()) + pad + "}"@).len()] == ','
            || s[i + ("{\n"@ + render_entries(o, pad, o.len()) + pad + "}"@).len()] == '\n',
    ensures
        table_loop(s, i + 1 + render_entries(o, pad, o.len()).len(), obj_state(o, o.len()))
            == Scan::Done(
            Model::Object(o),
            i + ("{\n"@ + render_entries(o, pad, o.len()) + pad + "}"@).len(),
        ),
{
    lemma_reveal_pieces();
    let n = o.len();
    let re = render_entries(o, pad, n);
    lemma_split(s, i, "{\n"@ + re + pad, "}"@);
    lemma_split(s, i, "{\n"@ + re, pad);
    lemma_split(s, i, "{\n"@, re);
    lemma_entries_end_newline(o, pad, n);
    lemma_stands_at_char(s, i + 2, re, re.len() - 1);
    let p = i + 1 + re.len();
    let c = p + 1 + pad.len();
    assert forall|t: int| p <= t < c implies is_white(#[trigger] s[t]) by {
        if t > p {
            lemma_stands_at_char(s, p + 1, pad, t - p - 1);
        }
    }
    lemma_stands_at_char(s, c, "}"@, 0);
    lemma_skip_to(s, p, c);
    assert(o.take(n as int) =~= o);
}

/// A value written as a SavedVariables file is read back as the same value.
pub proof fn lemma_written_reads_back(name: Seq<char>, v: Model)
    requires
        writable(v),
    ensures
        read_saved_variable(saved_variable_text(name, v), name) == Scan::Done(
            v,
            render(v, seq![]).len() as int,
        ),
{
    lemma_reveal_pieces();
    let t = saved_variable_text(name, v);
    let pat = assignment_of(name);
    let r = render(v, seq![]);
    assert(t.subrange(0, pat.len() as int) =~= pat);
    assert(occurs_at(t, pat, 0));
    assert(find_assignment(t, name, 0) == Some(0int));
    let rest = t.skip(pat.len() as int);
    assert(rest =~= r + "\n"@);
    assert(stands_at(rest, 0, r)) by {
        assert(rest.subrange(0, r.len() as int) =~= r);
    }
    assert(rest[r.len() as int] == '\n');
    assert(all_tabs(seq![]));
    lemma_read_value(rest, 0, 0, v, seq![]);
}

/// A string written in quotes by the writer is read back by the string reader
/// as the same string, and the whole text is read. Holds of strings without a
/// NUL character (the writer escapes NUL as `\0`, which reads back as those
/// two characters).
pub proof fn lemma_written_string_reads_back(x: Seq<char>)
    requires
        forall|k: int| 0 <= k < x.len() ==> #[trigger] x[k] != '\0',
    ensures
        string_at(seq!['"'] + escape_string(x) + seq!['"'], 0) == Scan::Done(
            x,
            escape_string(x).len() + 2int,
        ),
{
    let t = seq!['"'] + escape_string(x) + seq!['"'];
    let body = escape_string(x) + seq!['"'];
    assert(stands_at(t, 1, body)) by {
        assert(t.subrange(1, 1 + body.len() as int) =~= body);
    }
    assert(t[0] == '"');
    lemma_read_string(t, 1, seq![], x);
    assert(seq![] + x =~= x);
}

} // verus!
