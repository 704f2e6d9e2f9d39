//! Writer of WoW SavedVariables files: a value as the Lua text that WoW's
//! restricted reader takes, one table entry per line, indented with tabs.

use vstd::prelude::*;
use crate::text::{int_decimal, nat_decimal, push_char, push_i64_decimal, push_str, u64_to_string};
use crate::value::{
    Model, Value, entries_model, lemma_model_array, lemma_model_object, values_model,
};

verus! {

/// How a character of a string value is written.
pub open spec fn escape_char(c: char) -> Seq<char> {
    if c == '"' {
        seq!['\\', '"']
    } else if c == '\\' {
        seq!['\\', '\\']
    } else if c == '\n' {
        seq!['\\', 'n']
    } else if c == '\r' {
        seq!['\\', 'r']
    } else if c == '\t' {
        seq!['\\', 't']
    } else if c == '\0' {
        seq!['\\', '0']
    } else {
        seq![c]
    }
}

/// How a character of a table key is written.
pub open spec fn escape_key_char(c: char) -> Seq<char> {
    if c == '"' {
        seq!['\\', '"']
    } else if c == '\\' {
        seq!['\\', '\\']
    } else {
        seq![c]
    }
}

pub open spec fn escape_string(s: Seq<char>) -> Seq<char>
    decreases s.len(),
{
    if s.len() == 0 {
        seq![]
    } else {
        escape_string(s.drop_last()) + escape_char(s.last())
    }
}

pub open spec fn escape_key(s: Seq<char>) -> Seq<char>
    decreases s.len(),
{
    if s.len() == 0 {
        seq![]
    } else {
        escape_key(s.drop_last()) + escape_key_char(s.last())
    }
}

/// The Lua text of a value whose enclosing lines are indented by `pad`.
pub open spec fn render(v: Model, pad: Seq<char>) -> Seq<char>
    decreases v, 0nat,
{
    match v {
        Model::Null => "nil"@,
        Model::Bool(b) => if b {
            "true"@
        } else {
            "false"@
        },
        Model::Int(i) => int_decimal(i as int),
        Model::Float(t) => t,
        Model::Str(s) => seq!['"'] + escape_string(s) + seq!['"'],
        Model::Array(a) => if a.len() == 0 {
            "{}"@
        } else {
            "{\n"@ + render_items(a, pad, a.len()) + pad + "}"@
        },
        Model::Object(o) => if o.len() == 0 {
            "{}"@
        } else {
            "{\n"@ + render_entries(o, pad, o.len()) + pad + "}"@
        },
    }
}

/// The first `n` elements of an array, one `[i] = value,` line each.
pub open spec fn render_items(a: Seq<Model>, pad: Seq<char>, n: nat) -> Seq<char>
    decreases a, n,
{
    if n == 0 || n > a.len() {
        seq![]
    } else {
        render_items(a, pad, (n - 1) as nat) + pad.push('\t') + "["@ + nat_decimal(n) + "] = "@
            + render(a[n - 1], pad.push('\t')) + ",\n"@
    }
}

/// The first `n` entries of a table, one `["key"] = value,` line each.
pub open spec fn render_entries(o: Seq<(Seq<char>, Model)>, pad: Seq<char>, n: nat) -> Seq<char>
    decreases o, n,
{
    if n == 0 || n > o.len() {
        seq![]
    } else {
        render_entries(o, pad, (n - 1) as nat) + pad.push('\t') + "[\""@ + escape_key(o[n - 1].0)
            + "\"] = "@ + render(o[n - 1].1, pad.push('\t')) + ",\n"@
    }
}

/// The text of a file assigning `v` to the global `name`.
pub open spec fn saved_variable_text(name: Seq<char>, v: Model) -> Seq<char> {
    name + " = "@ + render(v, seq![]) + "\n"@
}

} // verus!

verus! {

/// Writes `name = value` and a line break (a SavedVariables file for one global).
pub fn write_saved_variable(name: &str, value: &Value) -> (r: String)
    ensures
        r@ == saved_variable_text(name@, value.model()),
{
    let mut output = String::new();
    push_str(&mut output, name);
    push_str(&mut output, " = ");
    let pad = String::new();
    write_value(&mut output, value, &pad);
    push_char(&mut output, '\n');
    proof {
        reveal_strlit("\n");
    }
    assert(output@ =~= saved_variable_text(name@, value.model()));
    output
}

fn write_value(out: &mut String, value: &Value, pad: &String)
    ensures
        final(out)@ == old(out)@ + render(value.model(), pad@),
    decreases value,
{
    match value {
        Value::Null => push_str(out, "nil"),
        Value::Bool(b) => {
            if *b {
                push_str(out, "true");
            } else {
                push_str(out, "false");
            }
        },
        Value::Int(i) => push_i64_decimal(out, *i),
        Value::Float(t) => push_str(out, t.as_str()),
        Value::Str(s) => write_lua_string(out, s.as_str()),
        Value::Array(arr) => {
            proof {
                lemma_model_array(*arr);
            }
            write_array(out, arr, pad);
        },
        Value::Object(map) => {
            proof {
                lemma_model_object(*map);
            }
            write_table(out, map, pad);
        },
    }
}

/// Appends `s` as a quoted Lua string, escaping quotes, backslashes, line
/// breaks, tabs and NUL.
pub fn write_lua_string(out: &mut String, s: &str)
    ensures
        final(out)@ == old(out)@ + seq!['"'] + escape_string(s@) + seq!['"'],
{
    let ghost o = out@;
    push_char(out, '"');
    for c in it: s.chars()
        invariant
            it.seq() == s@,
            out@ == o + seq!['"'] + escape_string(it.seq().take(it.index() as int)),
    {
        let ghost prefix = it.seq().take(it.index() as int);
        if c == '"' {
            push_char(out, '\\');
            push_char(out, '"');
        } else if c == '\\' {
            push_char(out, '\\');
            push_char(out, '\\');
        } else if c == '\n' {
            push_char(out, '\\');
            push_char(out, 'n');
        } else if c == '\r' {
            push_char(out, '\\');
            push_char(out, 'r');
        } else if c == '\t' {
            push_char(out, '\\');
            push_char(out, 't');
        } else if c == '\0' {
            push_char(out, '\\');
            push_char(out, '0');
        } else {
            push_char(out, c);
        }
        assert(it.seq().take(it.index() + 1).drop_last() =~= prefix);
        assert(out@ =~= o + seq!['"'] + escape_string(it.seq().take(it.index() + 1)));
    }
    assert(s@.take(s@.len() as int) =~= s@);
    push_char(out, '"');
    assert(out@ =~= o + seq!['"'] + escape_string(s@) + seq!['"']);
}

fn write_key(out: &mut String, key: &String)
    ensures
        final(out)@ == old(out)@ + escape_key(key@),
{
    let ghost o = out@;
    for c in it: key.as_str().chars()
        invariant
            it.seq() == key@,
            out@ == o + escape_key(it.seq().take(it.index() as int)),
    {
        let ghost prefix = it.seq().take(it.index() as int);
        if c == '"' {
            push_char(out, '\\');
            push_char(out, '"');
        } else if c == '\\' {
            push_char(out, '\\');
            push_char(out, '\\');
        } else {
            push_char(out, c);
        }
        assert(it.seq().take(it.index() + 1).drop_last() =~= prefix);
        assert(out@ =~= o + escape_key(it.seq().take(it.index() + 1)));
    }
    assert(key@.take(key@.len() as int) =~= key@);
}

/// `level` tabs.
pub open spec fn tabs(level: nat) -> Seq<char> {
    Seq::new(level, |i: int| '\t')
}

/// Appends `level` tabs, the indentation of that nesting level.
pub fn write_indent(out: &mut String, level: usize)
    ensures
        final(out)@ == old(out)@ + tabs(level as nat),
{
    let ghost o = out@;
    let mut k: usize = 0;
    while k < level
        invariant
            k <= level,
            out@ == o + tabs(k as nat),
        decreases level - k,
    {
        push_char(out, '\t');
        assert(tabs((k + 1) as nat) =~= tabs(k as nat).push('\t'));
        assert(out@ =~= o + tabs((k + 1) as nat));
        k = k + 1;
    }
}

/// `pad` and one more level of indentation.
fn deeper(pad: &String) -> (r: String)
    ensures
        r@ == pad@.push('\t'),
{
    let mut r = String::new();
    push_str(&mut r, pad.as_str());
    write_indent(&mut r, 1);
    assert(tabs(1) =~= seq!['\t']);
    assert(r@ =~= pad@.push('\t'));
    r
}

fn write_array(out: &mut String, arr: &Vec<Value>, pad: &String)
    ensures
        final(out)@ == old(out)@ + render(Model::Array(values_model(arr@)), pad@),
    decreases arr,
{
    let ghost o = out@;
    let ghost a = values_model(arr@);
    if arr.len() == 0 {
        push_str(out, "{}");
        return ;
    }
    let inner = deeper(pad);
    push_str(out, "{\n");
    let mut i: usize = 0;
    while i < arr.len()
        invariant
            i <= arr.len(),
            a == values_model(arr@),
            inner@ == pad@.push('\t'),
            out@ == o + "{\n"@ + render_items(a, pad@, i as nat),
        decreases arr.len() - i,
    {
        push_str(out, inner.as_str());
        push_str(out, "[");
        let t = u64_to_string((i + 1) as u64);
        push_str(out, t.as_str());
        push_str(out, "] = ");
        assert(decreases_to!(arr => arr@[i as int]));
        write_value(out, &arr[i], &inner);
        push_str(out, ",\n");
        assert(out@ =~= o + "{\n"@ + render_items(a, pad@, (i + 1) as nat));
        i = i + 1;
    }
    push_str(out, pad.as_str());
    push_str(out, "}");
    assert(out@ =~= o + render(Model::Array(a), pad@));
}

fn write_table(out: &mut String, map: &Vec<(String, Value)>, pad: &String)
    ensures
        final(out)@ == old(out)@ + render(Model::Object(entries_model(map@)), pad@),
    decreases map,
{
    let ghost o = out@;
    let ghost m = entries_model(map@);
    if map.len() == 0 {
        push_str(out, "{}");
        return ;
    }
    let inner = deeper(pad);
    push_str(out, "{\n");
    let mut i: usize = 0;
    while i < map.len()
        invariant
            i <= map.len(),
            m == entries_model(map@),
            inner@ == pad@.push('\t'),
            out@ == o + "{\n"@ + render_entries(m, pad@, i as nat),
        decreases map.len() - i,
    {
        push_str(out, inner.as_str());
        push_str(out, "[\"");
        write_key(out, &map[i].0);
        push_str(out, "\"] = ");
        assert(decreases_to!(map => map@[i as int].1));
        write_value(out, &map[i].1, &inner);
        push_str(out, ",\n");
        assert(out@ =~= o + "{\n"@ + render_entries(m, pad@, (i + 1) as nat));
        i = i + 1;
    }
    push_str(out, pad.as_str());
    push_str(out, "}");
    assert(out@ =~= o + render(Model::Object(m), pad@));
}

} // verus!
