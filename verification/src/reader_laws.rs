//! What holds of every value the reader gives back: each table has its keys
//! in strictly ascending order.

use vstd::prelude::*;
use crate::value::{
    Model, keys_sorted, obj_insert, lemma_obj_insert_sorted, lemma_lower_bound_facts,
};
use crate::lua_parser::{
    Scan, TKey, TState, table_start, table_add, table_finish, ent_index, keys_are_positions,
    key_present, entries_array, value_at, table_at, table_loop, entry_at, bracket_entry_at,
    named_entry_at, bracket_key_at, skip_space, expect_at, ident_end, read_saved_variable,
    value_start, lemma_skip_space, lemma_expect_at, lemma_ident_end, lemma_bracket_key_at,
    word_start,
};

verus! {

/// Every table in `m`, at any depth, has its keys in strictly ascending order.
pub open spec fn tables_sorted(m: Model) -> bool
    decreases m,
{
    match m {
        Model::Array(a) => forall|k: int| 0 <= k < a.len() ==> tables_sorted(#[trigger] a[k]),
        Model::Object(o) => keys_sorted(o) && forall|k: int|
            0 <= k < o.len() ==> tables_sorted(#[trigger] o[k].1),
        _ => true,
    }
}

/// What has been read of a table holds only such values, keyed in order.
spec fn state_sorted(st: TState) -> bool {
    &&& keys_sorted(st.map)
    &&& forall|k: int| 0 <= k < st.map.len() ==> tables_sorted(#[trigger] st.map[k].1)
    &&& forall|q: int| 0 <= q < st.ents.len() ==> tables_sorted(#[trigger] st.ents[q].1)
}

proof fn lemma_insert_values(o: Seq<(Seq<char>, Model)>, k: Seq<char>, v: Model)
    requires
        forall|i: int| 0 <= i < o.len() ==> tables_sorted(#[trigger] o[i].1),
        tables_sorted(v),
    ensures
        forall|i: int|
            0 <= i < obj_insert(o, k, v).len() ==> tables_sorted(#[trigger] obj_insert(o, k, v)[i].1),
{
    let r = obj_insert(o, k, v);
    let p = crate::value::lower_bound(o, k);
    lemma_lower_bound_facts(o, k, 0);
    assert forall|i: int| 0 <= i < r.len() implies tables_sorted(#[trigger] r[i].1) by {
        if p < o.len() && o[p].0 == k {
            if i != p {
                assert(r[i] == o[i]);
            }
        } else {
            if i < p {
                assert(r[i] == o[i]);
            } else if i > p {
                assert(r[i] == o[i - 1]);
            }
        }
    }
}

proof fn lemma_add_keeps(st: TState, key: TKey, v: Model)
    requires
        state_sorted(st),
        tables_sorted(v),
    ensures
        table_add(st, key, v) matches Some(st2) ==> state_sorted(st2),
{
    match key {
        TKey::Name(t) => {
            lemma_obj_insert_sorted(st.map, t, v);
            lemma_insert_values(st.map, t, v);
        },
        TKey::Index(k) => {
            if !(k >= st.auto && k == i64::MAX) {
                let name = crate::text::int_decimal(k as int);
                lemma_obj_insert_sorted(st.map, name, v);
                lemma_insert_values(st.map, name, v);
                let e2 = st.ents.push((k, v));
                assert forall|q: int| 0 <= q < e2.len() implies tables_sorted(#[trigger] e2[q].1) by {
                    if q < st.ents.len() {
                        assert(e2[q] == st.ents[q]);
                    }
                }
            }
        },
        TKey::Next => {
            if st.auto != i64::MAX {
                let name = crate::text::int_decimal(st.auto as int);
                lemma_obj_insert_sorted(st.map, name, v);
                lemma_insert_values(st.map, name, v);
                let e2 = st.ents.push((st.auto, v));
                assert forall|q: int| 0 <= q < e2.len() implies tables_sorted(#[trigger] e2[q].1) by {
                    if q < st.ents.len() {
                        assert(e2[q] == st.ents[q]);
                    }
                }
            }
        },
    }
}

proof fn lemma_ent_index_found(ents: Seq<(i64, Model)>, k: int, q0: int, q: int)
    requires
        0 <= q0 <= q < ents.len(),
        ents[q].0 == k,
    ensures
        q0 <= ent_index(ents, k, q0) <= q,
    decreases q - q0,
{
    if ents[q0].0 != k {
        lemma_ent_index_found(ents, k, q0 + 1, q);
    }
}

proof fn lemma_finish_sorted(st: TState)
    requires
        state_sorted(st),
    ensures
        tables_sorted(table_finish(st)),
{
    if st.pure && keys_are_positions(st.ents) {
        let a = entries_array(st.ents);
        assert forall|p: int| 0 <= p < a.len() implies tables_sorted(#[trigger] a[p]) by {
            assert(key_present(st.ents, p + 1));
            let q = choose|q: int| 0 <= q < st.ents.len() && #[trigger] st.ents[q].0 == p + 1;
            lemma_ent_index_found(st.ents, p + 1, 0, q);
            let w = ent_index(st.ents, p + 1, 0);
            assert(a[p] == st.ents[w].1);
        }
    }
}

proof fn lemma_value_sorted(s: Seq<char>, i: int)
    ensures
        value_at(s, i) matches Scan::Done(m, _) ==> tables_sorted(m),
    decreases s.len() - i, 2int,
{
    if 0 <= i <= s.len() {
        lemma_skip_space(s, i);
        if let Some(j) = skip_space(s, i) {
            if j < s.len() && s[j] == '{' {
                lemma_table_sorted(s, j);
            }
        }
    }
}

proof fn lemma_table_sorted(s: Seq<char>, i: int)
    ensures
        table_at(s, i) matches Scan::Done(m, _) ==> tables_sorted(m),
    decreases s.len() - i, 1int,
{
    if 0 <= i <= s.len() {
        lemma_expect_at(s, i, '{');
        if let Scan::Done(_, j) = expect_at(s, i, '{') {
            lemma_loop_sorted(s, j, table_start());
        }
    }
}

proof fn lemma_loop_sorted(s: Seq<char>, i: int, st: TState)
    requires
        state_sorted(st),
    ensures
        table_loop(s, i, st) matches Scan::Done(m, _) ==> tables_sorted(m),
    decreases s.len() - i, 5int,
{
    if 0 <= i <= s.len() {
        lemma_skip_space(s, i);
        if let Some(j) = skip_space(s, i) {
            if j < s.len() && s[j] == '}' {
                lemma_finish_sorted(st);
            } else {
                lemma_entry_sorted(s, j);
                if let Scan::Done((key, v), k) = entry_at(s, j) {
                    lemma_add_keeps(st, key, v);
                    if let Some(st2) = table_add(st, key, v) {
                        if 0 <= k <= s.len() {
                            lemma_skip_space(s, k);
                            if let Some(m) = skip_space(s, k) {
                                let n = if m < s.len() && (s[m] == ',' || s[m] == ';') {
                                    m + 1
                                } else {
                                    m
                                };
                                if n > i {
                                    lemma_loop_sorted(s, n, st2);
                                }
                            }
                        }
                    }
                }
            }
        }
    }
}

proof fn lemma_entry_sorted(s: Seq<char>, i: int)
    ensures
        entry_at(s, i) matches Scan::Done((_, v), _) ==> tables_sorted(v),
    decreases s.len() - i, 4int,
{
    if 0 <= i <= s.len() {
        lemma_skip_space(s, i);
        if let Some(j) = skip_space(s, i) {
            if j < s.len() && s[j] == '[' {
                lemma_bracket_entry_sorted(s, j);
            } else if j < s.len() && (word_start(s[j]) || s[j] == '_') {
                lemma_named_entry_sorted(s, j);
            } else {
                lemma_value_sorted(s, j);
            }
        }
    }
}

proof fn lemma_bracket_entry_sorted(s: Seq<char>, j: int)
    ensures
        bracket_entry_at(s, j) matches Scan::Done((_, v), _) ==> tables_sorted(v),
    decreases s.len() - j, 3int,
{
    if 0 <= j < s.len() {
        lemma_skip_space(s, j + 1);
        if let Some(k) = skip_space(s, j + 1) {
            lemma_bracket_key_at(s, k);
            if let Scan::Done(_, k2) = bracket_key_at(s, k) {
                lemma_expect_at(s, k2, ']');
                if let Scan::Done(_, k3) = expect_at(s, k2, ']') {
                    lemma_skip_space(s, k3);
                    if let Some(k4) = skip_space(s, k3) {
                        lemma_expect_at(s, k4, '=');
                        if let Scan::Done(_, k5) = expect_at(s, k4, '=') {
                            lemma_value_sorted(s, k5);
                        }
                    }
                }
            }
        }
    }
}

proof fn lemma_named_entry_sorted(s: Seq<char>, j: int)
    ensures
        named_entry_at(s, j) matches Scan::Done((_, v), _) ==> tables_sorted(v),
    decreases s.len() - j, 3int,
{
    if 0 <= j < s.len() {
        let e = ident_end(s, j);
        lemma_ident_end(s, j);
        lemma_skip_space(s, e);
        if let Some(k) = skip_space(s, e) {
            if k < s.len() && s[k] == '=' {
                lemma_value_sorted(s, k + 1);
            }
        }
    }
}

/// Every table of a value read from a SavedVariables file has its keys in
/// strictly ascending order (the order of a `serde_json` map).
pub proof fn lemma_read_tables_sorted(input: Seq<char>, name: Seq<char>)
    ensures
        read_saved_variable(input, name) matches Scan::Done(m, _) ==> tables_sorted(m),
{
    if let Some(b) = value_start(input, name) {
        lemma_value_sorted(input.skip(b), 0);
    }
}

} // verus!
