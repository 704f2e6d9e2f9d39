//! The data that SavedVariables files hold: nil, booleans, integers, decimal
//! numbers, strings, arrays and tables keyed by strings, with the tables kept
//! in ascending key order (as a `BTreeMap` keeps them).

use vstd::prelude::*;
use crate::text::{seq_lt, str_less, str_eq, lemma_seq_lt_total, lemma_seq_lt_transitive};

verus! {

/// A value read from, or to be written to, a SavedVariables file.
///
/// `Float` holds the decimal text of a number written with a fractional part
/// (such as `3.14`); `Object` holds its entries, kept in strictly ascending
/// key order by those who build it (the reader does, see [`table_insert`]).
#[derive(Debug)]
pub enum Value {
    Null,
    Bool(bool),
    Int(i64),
    Float(String),
    Str(String),
    Array(Vec<Value>),
    Object(Vec<(String, Value)>),
}

/// The mathematical content of a [`Value`].
pub enum Model {
    Null,
    Bool(bool),
    Int(i64),
    Float(Seq<char>),
    Str(Seq<char>),
    Array(Seq<Model>),
    Object(Seq<(Seq<char>, Model)>),
}

/// The content of a list of table entries.
pub open spec fn entries_model(t: Seq<(String, Value)>) -> Seq<(Seq<char>, Model)> {
    Seq::new(t.len(), |i: int| (t[i].0@, t[i].1.model()))
}

/// The content of a list of values.
pub open spec fn values_model(a: Seq<Value>) -> Seq<Model> {
    Seq::new(a.len(), |i: int| a[i].model())
}

impl Value {
    pub open spec fn model(&self) -> Model
        decreases self,
    {
        match self {
            Value::Null => Model::Null,
            Value::Bool(b) => Model::Bool(*b),
            Value::Int(i) => Model::Int(*i),
            Value::Float(s) => Model::Float(s@),
            Value::Str(s) => Model::Str(s@),
            Value::Array(a) => Model::Array(
                Seq::new(
                    a@.len(),
                    |i: int|
                        if 0 <= i < a@.len() {
                            a@[i].model()
                        } else {
                            Model::Null
                        },
                ),
            ),
            Value::Object(o) => Model::Object(
                Seq::new(
                    o@.len(),
                    |i: int|
                        if 0 <= i < o@.len() {
                            (o@[i].0@, o@[i].1.model())
                        } else {
                            (Seq::empty(), Model::Null)
                        },
                ),
            ),
        }
    }
}

pub proof fn lemma_model_array(a: Vec<Value>)
    ensures
        Value::Array(a).model() == Model::Array(values_model(a@)),
{
    assert(Value::Array(a).model()->Array_0 =~= values_model(a@));
}

pub proof fn lemma_model_object(o: Vec<(String, Value)>)
    ensures
        Value::Object(o).model() == Model::Object(entries_model(o@)),
{
    assert(Value::Object(o).model()->Object_0 =~= entries_model(o@));
}

// ------------------------------------------------------------------
// Ordered tables
// ------------------------------------------------------------------

/// Keys in strictly ascending order.
pub open spec fn keys_sorted(o: Seq<(Seq<char>, Model)>) -> bool {
    forall|i: int, j: int| 0 <= i < j < o.len() ==> seq_lt(#[trigger] o[i].0, #[trigger] o[j].0)
}

/// First index at or after `i` whose key does not sort before `k`.
pub open spec fn lower_bound_from(o: Seq<(Seq<char>, Model)>, k: Seq<char>, i: int) -> int
    decreases o.len() - i,
{
    if i < 0 || i >= o.len() {
        if i < 0 {
            0
        } else {
            o.len() as int
        }
    } else if seq_lt(o[i].0, k) {
        lower_bound_from(o, k, i + 1)
    } else {
        i
    }
}

/// Where key `k` stands, or would stand, in the ordered entries `o`.
pub open spec fn lower_bound(o: Seq<(Seq<char>, Model)>, k: Seq<char>) -> int {
    lower_bound_from(o, k, 0)
}

/// `o` with `k` mapped to `v`: the value of an entry with key `k` is replaced,
/// or a new entry is put in its place in the order.
pub open spec fn obj_insert(o: Seq<(Seq<char>, Model)>, k: Seq<char>, v: Model) -> Seq<
    (Seq<char>, Model),
> {
    let p = lower_bound(o, k);
    if p < o.len() && o[p].0 == k {
        o.update(p, (k, v))
    } else {
        o.insert(p, (k, v))
    }
}

/// Index of the entry with key `k`, searching from `i`.
pub open spec fn key_index_from(o: Seq<(Seq<char>, Model)>, k: Seq<char>, i: int) -> Option<int>
    decreases o.len() - i,
{
    if i < 0 || i >= o.len() {
        None
    } else if o[i].0 == k {
        Some(i)
    } else {
        key_index_from(o, k, i + 1)
    }
}

/// The value that the entries `o` map `k` to.
pub open spec fn obj_get(o: Seq<(Seq<char>, Model)>, k: Seq<char>) -> Option<Model> {
    match key_index_from(o, k, 0) {
        Some(i) => Some(o[i].1),
        None => None,
    }
}

pub proof fn lemma_lower_bound_facts(o: Seq<(Seq<char>, Model)>, k: Seq<char>, i: int)
    requires
        0 <= i <= o.len(),
    ensures
        i <= lower_bound_from(o, k, i) <= o.len(),
        forall|j: int| i <= j < lower_bound_from(o, k, i) ==> seq_lt(#[trigger] o[j].0, k),
        lower_bound_from(o, k, i) < o.len() ==> !seq_lt(o[lower_bound_from(o, k, i)].0, k),
    decreases o.len() - i,
{
    if i < o.len() && seq_lt(o[i].0, k) {
        lemma_lower_bound_facts(o, k, i + 1);
    }
}

/// Inserting keeps the keys in ascending order.
pub proof fn lemma_obj_insert_sorted(o: Seq<(Seq<char>, Model)>, k: Seq<char>, v: Model)
    requires
        keys_sorted(o),
    ensures
        keys_sorted(obj_insert(o, k, v)),
        obj_insert(o, k, v).len() >= 1,
{
    let p = lower_bound(o, k);
    lemma_lower_bound_facts(o, k, 0);
    let r = obj_insert(o, k, v);
    if p < o.len() && o[p].0 == k {
        assert forall|i: int, j: int| 0 <= i < j < r.len() implies seq_lt(
            #[trigger] r[i].0,
            #[trigger] r[j].0,
        ) by {
            assert(r[i].0 == o[i].0);
            assert(r[j].0 == o[j].0);
        }
    } else {
        if p < o.len() {
            lemma_seq_lt_total(o[p].0, k);
            assert(seq_lt(k, o[p].0));
        }
        assert forall|i: int, j: int| 0 <= i < j < r.len() implies seq_lt(
            #[trigger] r[i].0,
            #[trigger] r[j].0,
        ) by {
            if j < p {
                assert(r[i] == o[i] && r[j] == o[j]);
            } else if j == p {
                assert(r[j].0 == k);
                assert(r[i] == o[i]);
            } else if i < p {
                assert(r[i] == o[i] && r[j] == o[j - 1]);
                assert(seq_lt(o[i].0, k));
                assert(seq_lt(k, o[p].0));
                if j - 1 > p {
                    lemma_seq_lt_transitive(k, o[p].0, o[j - 1].0);
                }
                lemma_seq_lt_transitive(o[i].0, k, o[j - 1].0);
            } else if i == p {
                assert(r[i].0 == k && r[j] == o[j - 1]);
                if j - 1 > p {
                    lemma_seq_lt_transitive(k, o[p].0, o[j - 1].0);
                }
            } else {
                assert(r[i] == o[i - 1] && r[j] == o[j - 1]);
            }
        }
    }
}

/// Where the search for key `k` from `i` ends: the first entry at or after `i`
/// with that key.
proof fn lemma_key_index_first(o: Seq<(Seq<char>, Model)>, k: Seq<char>, i: int)
    requires
        0 <= i <= o.len(),
    ensures
        match key_index_from(o, k, i) {
            Some(j) => i <= j < o.len() && o[j].0 == k && forall|q: int| i <= q < j ==> o[q].0 != k,
            None => forall|q: int| i <= q < o.len() ==> o[q].0 != k,
        },
    decreases o.len() - i,
{
    if i < o.len() && o[i].0 != k {
        lemma_key_index_first(o, k, i + 1);
    }
}

proof fn lemma_get_unique(o: Seq<(Seq<char>, Model)>, k: Seq<char>, j: int)
    requires
        keys_sorted(o),
        0 <= j < o.len(),
        o[j].0 == k,
    ensures
        obj_get(o, k) == Some(o[j].1),
{
    lemma_key_index_first(o, k, 0);
    if let Some(q) = key_index_from(o, k, 0) {
        if q != j {
            if q < j {
                crate::text::lemma_seq_lt_irreflexive(k);
                assert(seq_lt(o[q].0, o[j].0));
            }
        }
    }
}

proof fn lemma_get_absent(o: Seq<(Seq<char>, Model)>, k: Seq<char>)
    requires
        forall|q: int| 0 <= q < o.len() ==> o[q].0 != k,
    ensures
        obj_get(o, k) is None,
{
    lemma_key_index_first(o, k, 0);
}

/// A table read after setting `k` to `v` gives `v` for `k`, and for every
/// other key what it gave before (as a map does).
pub proof fn lemma_insert_then_get(o: Seq<(Seq<char>, Model)>, k: Seq<char>, v: Model, k2: Seq<char>)
    requires
        keys_sorted(o),
    ensures
        obj_get(obj_insert(o, k, v), k2) == if k2 == k {
            Some(v)
        } else {
            obj_get(o, k2)
        },
{
    let r = obj_insert(o, k, v);
    let p = lower_bound(o, k);
    lemma_lower_bound_facts(o, k, 0);
    lemma_obj_insert_sorted(o, k, v);
    let replaced = p < o.len() && o[p].0 == k;
    assert(r[p] == (k, v));
    if k2 == k {
        lemma_get_unique(r, k, p);
    } else {
        lemma_key_index_first(o, k2, 0);
        match key_index_from(o, k2, 0) {
            Some(j) => {
                let j2 = if replaced || j < p { j } else { j + 1 };
                assert(r[j2] == o[j]);
                lemma_get_unique(r, k2, j2);
            },
            None => {
                assert forall|q: int| 0 <= q < r.len() implies r[q].0 != k2 by {
                    if q != p {
                        if replaced || q < p {
                            assert(r[q] == o[q]);
                        } else {
                            assert(r[q] == o[q - 1]);
                        }
                    }
                }
                lemma_get_absent(r, k2);
            },
        }
    }
}

/// Maps `key` to `value` in the ordered entries `t`.
pub fn table_insert(t: &mut Vec<(String, Value)>, key: String, value: Value)
    ensures
        entries_model(final(t)@) == obj_insert(entries_model(old(t)@), key@, value.model()),
{
    let ghost o = entries_model(t@);
    let ghost k = key@;
    let mut i: usize = 0;
    while i < t.len() && str_less(t[i].0.as_str(), key.as_str())
        invariant
            o == entries_model(t@),
            k == key@,
            i <= t.len(),
            lower_bound_from(o, k, 0) == lower_bound_from(o, k, i as int),
        decreases t.len() - i,
    {
        i = i + 1;
    }
    assert(lower_bound(o, k) == i);
    if i < t.len() && t[i].0 == key {
        let ghost vm = value.model();
        t.set(i, (key, value));
        assert(entries_model(t@) =~= o.update(i as int, (k, vm)));
    } else {
        let ghost vm = value.model();
        t.insert(i, (key, value));
        assert(entries_model(t@) =~= o.insert(i as int, (k, vm)));
    }
}

impl Value {
    /// The value stored under `key` when this is a table (as `serde_json::Value::get`).
    pub fn get(&self, key: &str) -> (r: Option<&Value>)
        ensures
            match self.model() {
                Model::Object(o) => match obj_get(o, key@) {
                    Some(m) => r is Some && r->0.model() == m,
                    None => r is None,
                },
                _ => r is None,
            },
    {
        match self {
            Value::Object(t) => {
                proof {
                    lemma_model_object(*t);
                }
                let ghost o = entries_model(t@);
                let mut i: usize = 0;
                while i < t.len()
                    invariant
                        o == entries_model(t@),
                        self.model() == Model::Object(o),
                        i <= t.len(),
                        key_index_from(o, key@, 0) == key_index_from(o, key@, i as int),
                    decreases t.len() - i,
                {
                    if str_eq(t[i].0.as_str(), key) {
                        return Some(&t[i].1);
                    }
                    i = i + 1;
                }
                None
            },
            _ => None,
        }
    }

    /// The string when this is a string.
    pub fn as_str(&self) -> (r: Option<&str>)
        ensures
            match self.model() {
                Model::Str(s) => r is Some && r->0@ == s,
                _ => r is None,
            },
    {
        match self {
            Value::Str(s) => Some(s.as_str()),
            _ => None,
        }
    }

    /// The integer when this is an integer.
    pub fn as_i64(&self) -> (r: Option<i64>)
        ensures
            match self.model() {
                Model::Int(i) => r == Some(i),
                _ => r is None,
            },
    {
        match self {
            Value::Int(i) => Some(*i),
            _ => None,
        }
    }

    /// The boolean when this is a boolean.
    pub fn as_bool(&self) -> (r: Option<bool>)
        ensures
            match self.model() {
                Model::Bool(b) => r == Some(b),
                _ => r is None,
            },
    {
        match self {
            Value::Bool(b) => Some(*b),
            _ => None,
        }
    }

    /// The elements when this is an array.
    pub fn as_array(&self) -> (r: Option<&Vec<Value>>)
        ensures
            match self.model() {
                Model::Array(a) => r is Some && values_model(r->0@) == a,
                _ => r is None,
            },
    {
        match self {
            Value::Array(a) => {
                proof {
                    lemma_model_array(*a);
                }
                Some(a)
            },
            _ => None,
        }
    }

    /// The entries when this is a table.
    pub fn as_object(&self) -> (r: Option<&Vec<(String, Value)>>)
        ensures
            match self.model() {
                Model::Object(o) => r is Some && entries_model(r->0@) == o,
                _ => r is None,
            },
    {
        match self {
            Value::Object(o) => {
                proof {
                    lemma_model_object(*o);
                }
                Some(o)
            },
            _ => None,
        }
    }

    pub fn is_null(&self) -> (r: bool)
        ensures
            r == (self.model() is Null),
    {
        match self {
            Value::Null => true,
            _ => false,
        }
    }

    pub fn is_object(&self) -> (r: bool)
        ensures
            r == (self.model() is Object),
    {
        match self {
            Value::Object(_) => true,
            _ => false,
        }
    }

    /// A copy with the same content.
    #[verifier::loop_isolation(false)]
    pub fn duplicate(&self) -> (r: Value)
        ensures
            r.model() == self.model(),
        decreases self,
    {
        match self {
            Value::Null => Value::Null,
            Value::Bool(b) => Value::Bool(*b),
            Value::Int(i) => Value::Int(*i),
            Value::Float(s) => Value::Float(s.clone()),
            Value::Str(s) => Value::Str(s.clone()),
            Value::Array(a) => {
                let mut out: Vec<Value> = Vec::new();
                let mut i: usize = 0;
                while i < a.len()
                    invariant
                        i <= a.len(),
                        values_model(out@) == values_model(a@).take(i as int),
                    decreases a.len() - i,
                {
                    let x = a[i].duplicate();
                    out.push(x);
                    assert(values_model(out@) =~= values_model(a@).take(i + 1));
                    i = i + 1;
                }
                proof {
                    lemma_model_array(*a);
                    assert(values_model(a@).take(a.len() as int) =~= values_model(a@));
                    lemma_model_array(out);
                }
                Value::Array(out)
            },
            Value::Object(o) => {
                let mut out: Vec<(String, Value)> = Vec::new();
                let mut i: usize = 0;
                while i < o.len()
                    invariant
                        i <= o.len(),
                        entries_model(out@) == entries_model(o@).take(i as int),
                    decreases o.len() - i,
                {
                    let k = o[i].0.clone();
                    let x = o[i].1.duplicate();
                    out.push((k, x));
                    assert(entries_model(out@) =~= entries_model(o@).take(i + 1));
                    i = i + 1;
                }
                proof {
                    lemma_model_object(*o);
                    assert(entries_model(o@).take(o.len() as int) =~= entries_model(o@));
                    lemma_model_object(out);
                }
                Value::Object(out)
            },
        }
    }
}


// ------------------------------------------------------------------
// Reading values
// ------------------------------------------------------------------

/// The entry `k` of a table (nothing for a value that is not a table).
pub open spec fn field(m: Model, k: Seq<char>) -> Option<Model> {
    match m {
        Model::Object(o) => obj_get(o, k),
        _ => None,
    }
}

pub open spec fn field_of(m: Option<Model>, k: Seq<char>) -> Option<Model> {
    match m {
        Some(x) => field(x, k),
        None => None,
    }
}

/// A string, if the value is one.
pub open spec fn text_of(m: Option<Model>) -> Option<Seq<char>> {
    match m {
        Some(Model::Str(s)) => Some(s),
        _ => None,
    }
}

/// An integer, if the value is one.
pub open spec fn int_of(m: Option<Model>) -> Option<i64> {
    match m {
        Some(Model::Int(i)) => Some(i),
        _ => None,
    }
}

/// A number, integer or not, if the value is one.
pub open spec fn amount_of(m: Option<Model>) -> Option<Model> {
    match m {
        Some(Model::Int(i)) => Some(Model::Int(i)),
        Some(Model::Float(t)) => Some(Model::Float(t)),
        _ => None,
    }
}

pub open spec fn or_text(t: Option<Seq<char>>, d: Seq<char>) -> Seq<char> {
    match t {
        Some(x) => x,
        None => d,
    }
}

pub open spec fn or_zero(i: Option<i64>) -> i64 {
    match i {
        Some(x) => x,
        None => 0,
    }
}

pub open spec fn model_of(v: Option<&Value>) -> Option<Model> {
    match v {
        Some(x) => Some(x.model()),
        None => None,
    }
}

pub open spec fn str_opt(t: Option<&str>) -> Option<Seq<char>> {
    match t {
        Some(s) => Some(s@),
        None => None,
    }
}


/// The string stored under `key`, if it is a string.
pub fn text_field<'a>(v: &'a Value, key: &str) -> (r: Option<&'a str>)
    ensures
        str_opt(r) == text_of(field(v.model(), key@)),
{
    match v.get(key) {
        Some(x) => x.as_str(),
        None => None,
    }
}

/// The string stored under `key` of a table that may be missing, or empty.
pub fn text_field_or_empty(v: Option<&Value>, key: &str) -> (r: String)
    ensures
        r@ == or_text(text_of(field_of(model_of(v), key@)), Seq::empty()),
{
    match v {
        Some(x) => match text_field(x, key) {
            Some(t) => t.to_owned(),
            None => String::new(),
        },
        None => String::new(),
    }
}

/// The integer stored under `key`, if it is an integer.
pub fn int_field(v: &Value, key: &str) -> (r: Option<i64>)
    ensures
        r == int_of(field(v.model(), key@)),
{
    match v.get(key) {
        Some(x) => x.as_i64(),
        None => None,
    }
}

/// The string stored under `key`, or empty.
pub fn text_or_empty(v: &Value, key: &str) -> (r: String)
    ensures
        r@ == or_text(text_of(field(v.model(), key@)), Seq::empty()),
{
    match text_field(v, key) {
        Some(t) => t.to_owned(),
        None => String::new(),
    }
}

} // verus!
