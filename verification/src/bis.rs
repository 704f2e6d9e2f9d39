//! BiS lists: the `CharTrackerBiS` SavedVariables file written from the
//! website's export, and the items that the addon marked obtained in it.

use vstd::prelude::*;
use crate::value::{
    keys_sorted, lower_bound, lemma_lower_bound_facts, lemma_obj_insert_sorted,
    Value, Model, entries_model, values_model, obj_insert, table_insert, field, text_of, int_of,
    text_field, int_field, lemma_model_object,
};
use crate::lua_parser::{
    read_saved_variable, parse_saved_variable_checked, Scan, fault_message, parse_error_text,
};
use crate::lua_writer::{write_saved_variable, saved_variable_text, render};
use crate::laws::{writable, lemma_written_reads_back};
use crate::text::{
    push_str, str_eq, seq_lt, lemma_seq_lt_transitive, lemma_seq_lt_total, lemma_seq_lt_asymmetric,
};
use crate::sorting::views;

verus! {

/// An item of a BiS list whose obtained state is reported back to the website.
#[derive(Debug)]
pub struct ObtainedItemUpdate {
    pub bis_list_item_id: String,
    pub is_obtained: bool,
    pub obtained_at: Option<i64>,
}

/// The content of an [`ObtainedItemUpdate`].
pub struct UpdateView {
    pub bis_list_item_id: Seq<char>,
    pub is_obtained: bool,
    pub obtained_at: Option<i64>,
}

impl View for ObtainedItemUpdate {
    type V = UpdateView;

    open spec fn view(&self) -> UpdateView {
        UpdateView {
            bis_list_item_id: self.bis_list_item_id@,
            is_obtained: self.is_obtained,
            obtained_at: self.obtained_at,
        }
    }
}

// ------------------------------------------------------------------
// Writing the BiS file
// ------------------------------------------------------------------

/// The `_meta` table: the export's version, when it was downloaded, and where from.
pub open spec fn meta_model(version: i64, downloaded_at: i64) -> Model {
    Model::Object(
        seq![
            ("downloaded_at"@, Model::Int(downloaded_at)),
            ("source"@, Model::Str("goldschweine.de"@)),
            ("version"@, Model::Int(version)),
        ],
    )
}

/// The table `t` with the entries `entries` set in turn (a later one replaces
/// an earlier one of the same key).
pub open spec fn insert_all(t: Seq<(Seq<char>, Model)>, entries: Seq<(Seq<char>, Model)>) -> Seq<
    (Seq<char>, Model),
>
    decreases entries.len(),
{
    if entries.len() == 0 {
        t
    } else {
        obj_insert(insert_all(t, entries.drop_last()), entries.last().0, entries.last().1)
    }
}

/// The `CharTrackerBiS` table written for an export: `_meta`, then every
/// character of the export's `characters` table (version 1 when the export
/// gives none).
pub open spec fn bis_model(api: Model, downloaded_at: i64) -> Model {
    let version = match int_of(field(api, "version"@)) {
        Some(v) => v,
        None => 1,
    };
    let base = seq![("_meta"@, meta_model(version, downloaded_at))];
    match field(api, "characters"@) {
        Some(Model::Object(c)) => Model::Object(insert_all(base, c)),
        _ => Model::Object(base),
    }
}

/// The text of `CharTrackerBiS.lua` for the website's export `api_response`,
/// downloaded at `downloaded_at` (seconds since the Unix epoch); an error when
/// the export has no `characters`.
pub fn bis_saved_variables_at(api_response: &Value, downloaded_at: i64) -> (r: Result<String, String>)
    ensures
        match field(api_response.model(), "characters"@) {
            None => r matches Err(e) && e@ == "Missing 'characters' in API response"@,
            Some(_) => r matches Ok(t) && t@ == saved_variable_text(
                "CharTrackerBiS"@,
                bis_model(api_response.model(), downloaded_at),
            ),
        },
{
    let characters = match api_response.get("characters") {
        Some(c) => c,
        None => {
            return Err("Missing 'characters' in API response".to_owned());
        },
    };
    let version = match int_field(api_response, "version") {
        Some(v) => v,
        None => 1,
    };
    let meta_entries: Vec<(String, Value)> = vec![
        ("downloaded_at".to_owned(), Value::Int(downloaded_at)),
        ("source".to_owned(), Value::Str("goldschweine.de".to_owned())),
        ("version".to_owned(), Value::Int(version)),
    ];
    proof {
        lemma_model_object(meta_entries);
        assert(entries_model(meta_entries@) =~= meta_model(version, downloaded_at)->Object_0);
    }
    let meta = Value::Object(meta_entries);
    let mut table: Vec<(String, Value)> = vec![("_meta".to_owned(), meta)];
    let ghost base = seq![("_meta"@, meta_model(version, downloaded_at))];
    assert(entries_model(table@) =~= base);
    if let Some(c) = characters.as_object() {
        let ghost cm = entries_model(c@);
        let mut i: usize = 0;
        assert(cm.take(0) =~= Seq::<(Seq<char>, Model)>::empty());
        while i < c.len()
            invariant
                i <= c.len(),
                cm == entries_model(c@),
                entries_model(table@) == insert_all(base, cm.take(i as int)),
            decreases c.len() - i,
        {
            assert(cm[i as int] == (c@[i as int].0@, c@[i as int].1.model()));
            let key = c[i].0.clone();
            let data = c[i].1.duplicate();
            table_insert(&mut table, key, data);
            assert(cm.take(i + 1).drop_last() =~= cm.take(i as int));
            i = i + 1;
        }
        assert(cm.take(c.len() as int) =~= cm);
    }
    let whole = Value::Object(table);
    proof {
        lemma_model_object(table);
    }
    Ok(write_saved_variable("CharTrackerBiS", &whole))
}

/// Trusted: calls `chrono::Utc::now().timestamp()`, the current time in seconds
/// since the Unix epoch. Nothing is claimed of the result.
#[verifier::external_body]
fn unix_time_now() -> i64 {
    chrono::Utc::now().timestamp()
}

/// The text of `CharTrackerBiS.lua` for the website's export, stamped with
/// the current time; an error when the export has no `characters`.
pub fn bis_saved_variables(api_response: &Value) -> (r: Result<String, String>)
    ensures
        match field(api_response.model(), "characters"@) {
            None => r matches Err(e) && e@ == "Missing 'characters' in API response"@,
            Some(_) => r matches Ok(t) && exists|at: i64|
                t@ == saved_variable_text(
                    "CharTrackerBiS"@,
                    #[trigger] bis_model(api_response.model(), at),
                ),
        },
{
    let now = unix_time_now();
    bis_saved_variables_at(api_response, now)
}

// ------------------------------------------------------------------
// Reading obtained items
// ------------------------------------------------------------------

/// The update an item of a list reports: one marked obtained with a
/// `bis_list_item_id`.
pub open spec fn item_update(item: Model) -> Option<UpdateView> {
    let obtained = match field(item, "is_obtained"@) {
        Some(Model::Bool(b)) => b,
        _ => false,
    };
    match text_of(field(item, "bis_list_item_id"@)) {
        Some(id) => if obtained {
            Some(
                UpdateView {
                    bis_list_item_id: id,
                    is_obtained: true,
                    obtained_at: int_of(field(item, "obtained_at"@)),
                },
            )
        } else {
            None
        },
        None => None,
    }
}

pub open spec fn update_fn() -> spec_fn(Model) -> Option<UpdateView> {
    |m: Model| item_update(m)
}

/// The items of a character's `items`: an array's elements, or a table's
/// values in key order.
pub open spec fn list_items(items: Model) -> Seq<Model> {
    match items {
        Model::Array(a) => a,
        Model::Object(o) => o.map_values(|e: (Seq<char>, Model)| e.1),
        _ => Seq::empty(),
    }
}

/// The updates reported by one character's list.
pub open spec fn character_updates(char_data: Model) -> Seq<UpdateView> {
    match field(char_data, "items"@) {
        Some(items) => list_items(items).filter_map(update_fn()),
        None => Seq::empty(),
    }
}

pub open spec fn updates_in(chars: Seq<(Seq<char>, Model)>) -> Seq<UpdateView>
    decreases chars.len(),
{
    if chars.len() == 0 {
        Seq::empty()
    } else {
        updates_in(chars.drop_last()) + if chars.last().0 == "_meta"@ {
            Seq::empty()
        } else {
            character_updates(chars.last().1)
        }
    }
}

/// The updates reported by a `CharTrackerBiS` value: those of every character
/// (every entry but `_meta`), in key order.
pub open spec fn obtained_in(db: Model) -> Seq<UpdateView> {
    match db {
        Model::Object(o) => updates_in(o),
        _ => Seq::empty(),
    }
}

pub open spec fn maybe(u: Option<UpdateView>) -> Seq<UpdateView> {
    match u {
        Some(x) => seq![x],
        None => Seq::empty(),
    }
}

/// A character's list reports one update per item marked obtained
/// (`is_obtained = true`) that has a text `bis_list_item_id`, in list order:
/// an item added at the end of the list adds exactly its own update, and any
/// other item adds none. A table of items reports what the array of its values
/// (in key order) reports.
pub proof fn lemma_one_update_per_obtained_item(
    c1: Model,
    c2: Model,
    c3: Model,
    items: Seq<Model>,
    x: Model,
)
    requires
        field(c1, "items"@) == Some(Model::Array(items)),
        field(c2, "items"@) == Some(Model::Array(items.push(x))),
    ensures
        field(x, "bis_list_item_id"@) matches Some(Model::Str(id)) ==> (field(x, "is_obtained"@)
            == Some(Model::Bool(true)) ==> character_updates(c2) == character_updates(c1).push(
            UpdateView {
                bis_list_item_id: id,
                is_obtained: true,
                obtained_at: int_of(field(x, "obtained_at"@)),
            },
        )),
        field(x, "is_obtained"@) != Some(Model::Bool(true)) ==> character_updates(c2)
            == character_updates(c1),
        !(field(x, "bis_list_item_id"@) matches Some(Model::Str(_))) ==> character_updates(c2)
            == character_updates(c1),
        character_updates(c2).len() <= character_updates(c1).len() + 1,
        (field(c3, "items"@) matches Some(Model::Object(o)) && o.map_values(
            |e: (Seq<char>, Model)| e.1,
        ) == items) ==> character_updates(c3) == character_updates(c1),
{
    assert(items.push(x).drop_last() =~= items);
    assert(items.push(x).last() == x);
}

/// The updates of a `CharTrackerBiS` table are those of its characters in
/// key order: a character entry added at the end adds its list's updates, and
/// the `_meta` entry adds none.
pub proof fn lemma_updates_by_character(o: Seq<(Seq<char>, Model)>, key: Seq<char>, c: Model)
    ensures
        key != "_meta"@ ==> obtained_in(Model::Object(o.push((key, c)))) == obtained_in(
            Model::Object(o),
        ) + character_updates(c),
        key == "_meta"@ ==> obtained_in(Model::Object(o.push((key, c)))) == obtained_in(
            Model::Object(o),
        ),
        obtained_in(Model::Object(Seq::empty())) == Seq::<UpdateView>::empty(),
{
    assert(o.push((key, c)).drop_last() =~= o);
    assert(o.push((key, c)).last() == (key, c));
    assert(obtained_in(Model::Object(o)) + Seq::<UpdateView>::empty() =~= obtained_in(
        Model::Object(o),
    ));
}

/// Adds the update that `item` reports, if any.
fn note_item(out: &mut Vec<ObtainedItemUpdate>, item: &Value)
    ensures
        views(final(out)@) == views(old(out)@) + maybe(item_update(item.model())),
{
    let obtained = match item.get("is_obtained") {
        Some(b) => match b.as_bool() {
            Some(x) => x,
            None => false,
        },
        None => false,
    };
    if obtained {
        if let Some(id) = text_field(item, "bis_list_item_id") {
            let u = ObtainedItemUpdate {
                bis_list_item_id: id.to_owned(),
                is_obtained: true,
                obtained_at: int_field(item, "obtained_at"),
            };
            let ghost prev = out@;
            out.push(u);
            assert(views(out@) =~= views(prev) + seq![u@]);
            return;
        }
    }
    assert(views(out@) =~= views(old(out)@) + Seq::empty());
}

/// Adds the updates that one character's list reports.
fn note_character(out: &mut Vec<ObtainedItemUpdate>, char_data: &Value)
    ensures
        views(final(out)@) == views(old(out)@) + character_updates(char_data.model()),
{
    let ghost start = views(out@);
    match char_data.get("items") {
        Some(items) => {
            let ghost li = list_items(items.model());
            match items.as_array() {
                Some(arr) => {
                    let mut j: usize = 0;
                    assert(li.take(0) =~= Seq::<Model>::empty());
                    assert(start =~= start + Seq::<UpdateView>::empty());
                    while j < arr.len()
                        invariant
                            j <= arr.len(),
                            li == values_model(arr@),
                            views(out@) == start + li.take(j as int).filter_map(update_fn()),
                        decreases arr.len() - j,
                    {
                        assert(li[j as int] == arr@[j as int].model());
                        note_item(out, &arr[j]);
                        assert(li.take(j + 1).drop_last() =~= li.take(j as int));
                        assert(li.take(j + 1).last() == li[j as int]);
                        assert(views(out@) =~= start + li.take(j + 1).filter_map(update_fn()));
                        j = j + 1;
                    }
                    assert(li.take(arr.len() as int) =~= li);
                },
                None => {
                    match items.as_object() {
                        Some(obj) => {
                            let mut j: usize = 0;
                            assert(li.take(0) =~= Seq::<Model>::empty());
                            assert(start =~= start + Seq::<UpdateView>::empty());
                            while j < obj.len()
                                invariant
                                    j <= obj.len(),
                                    li == entries_model(obj@).map_values(
                                        |e: (Seq<char>, Model)| e.1,
                                    ),
                                    views(out@) == start + li.take(j as int).filter_map(
                                        update_fn(),
                                    ),
                                decreases obj.len() - j,
                            {
                                assert(li[j as int] == obj@[j as int].1.model());
                                note_item(out, &obj[j].1);
                                assert(li.take(j + 1).drop_last() =~= li.take(j as int));
                                assert(li.take(j + 1).last() == li[j as int]);
                                assert(views(out@) =~= start + li.take(j + 1).filter_map(
                                    update_fn(),
                                ));
                                j = j + 1;
                            }
                            assert(li.take(obj.len() as int) =~= li);
                        },
                        None => {
                            assert(li =~= Seq::<Model>::empty());
                            assert(views(out@) =~= start + Seq::<UpdateView>::empty());
                        },
                    }
                },
            }
        },
        None => {
            assert(views(out@) =~= start + Seq::<UpdateView>::empty());
        },
    }
}

/// The items marked obtained in a `CharTrackerBiS` value, character by
/// character in key order (the `_meta` entry is not a character).
pub fn obtained_items(bis_data: &Value) -> (r: Vec<ObtainedItemUpdate>)
    ensures
        views(r@) == obtained_in(bis_data.model()),
{
    let mut out: Vec<ObtainedItemUpdate> = Vec::new();
    assert(views(out@) =~= Seq::<UpdateView>::empty());
    if let Some(chars) = bis_data.as_object() {
        let ghost cm = entries_model(chars@);
        let mut i: usize = 0;
        assert(cm.take(0) =~= Seq::<(Seq<char>, Model)>::empty());
        while i < chars.len()
            invariant
                i <= chars.len(),
                cm == entries_model(chars@),
                views(out@) == updates_in(cm.take(i as int)),
            decreases chars.len() - i,
        {
            assert(cm[i as int] == (chars@[i as int].0@, chars@[i as int].1.model()));
            let ghost prev = views(out@);
            if !str_eq(chars[i].0.as_str(), "_meta") {
                note_character(&mut out, &chars[i].1);
            } else {
                assert(views(out@) =~= prev + Seq::<UpdateView>::empty());
            }
            assert(cm.take(i + 1).drop_last() =~= cm.take(i as int));
            assert(cm.take(i + 1).last() == cm[i as int]);
            i = i + 1;
        }
        assert(cm.take(chars.len() as int) =~= cm);
    }
    out
}

/// The items marked obtained in the text of `CharTrackerBiS.lua`; an error
/// when the file cannot be read as SavedVariables.
pub fn parse_obtained_items(content: &str) -> (r: Result<Vec<ObtainedItemUpdate>, String>)
    requires
        !(read_saved_variable(content@, "CharTrackerBiS"@) is Abort),
    ensures
        match read_saved_variable(content@, "CharTrackerBiS"@) {
            Scan::Done(m, _) => r matches Ok(v) && views(v@) == obtained_in(m),
            Scan::Fail(f, at) => r matches Err(e) && e@ == "Failed to parse CharTrackerBiS.lua: "@
                + parse_error_text(fault_message(f), at),
            Scan::Abort => false,
        },
{
    match parse_obtained_items_checked(content) {
        Some(r) => r,
        None => Err(String::new()),
    }
}

/// As [`parse_obtained_items`], on every text: `None` exactly where reading
/// `CharTrackerBiS` stops abnormally (a table's array index past `i64::MAX`).
pub fn parse_obtained_items_checked(content: &str) -> (r: Option<
    Result<Vec<ObtainedItemUpdate>, String>,
>)
    ensures
        match read_saved_variable(content@, "CharTrackerBiS"@) {
            Scan::Done(m, _) => r matches Some(Ok(v)) && views(v@) == obtained_in(m),
            Scan::Fail(f, at) => r matches Some(Err(e)) && e@
                == "Failed to parse CharTrackerBiS.lua: "@ + parse_error_text(fault_message(f), at),
            Scan::Abort => r is None,
        },
{
    match parse_saved_variable_checked(content, "CharTrackerBiS") {
        None => None,
        Some(Ok(v)) => Some(Ok(obtained_items(&v))),
        Some(Err(e)) => {
            let mut m = String::new();
            push_str(&mut m, "Failed to parse CharTrackerBiS.lua: ");
            let d = e.describe();
            push_str(&mut m, d.as_str());
            assert(m@ =~= "Failed to parse CharTrackerBiS.lua: "@ + d@);
            Some(Err(m))
        },
    }
}

} // verus!

verus! {

/// The BiS file written for an export reads back as the table written, when
/// that table is one the writer and reader keep unchanged (see [`writable`]).
pub proof fn lemma_bis_file_reads_back(api: Model, downloaded_at: i64)
    requires
        writable(bis_model(api, downloaded_at)),
    ensures
        read_saved_variable(
            saved_variable_text("CharTrackerBiS"@, bis_model(api, downloaded_at)),
            "CharTrackerBiS"@,
        ) == Scan::Done(
            bis_model(api, downloaded_at),
            render(bis_model(api, downloaded_at), seq![]).len() as int,
        ),
{
    lemma_written_reads_back("CharTrackerBiS"@, bis_model(api, downloaded_at));
}

} // verus!

verus! {

/// The entries of a table other than `_meta`.
pub open spec fn characters_of(o: Seq<(Seq<char>, Model)>) -> Seq<(Seq<char>, Model)> {
    o.filter(|e: (Seq<char>, Model)| e.0 != "_meta"@)
}

proof fn lemma_updates_skip_meta(o: Seq<(Seq<char>, Model)>)
    ensures
        updates_in(o) == updates_in(characters_of(o)),
    decreases o.len(),
{
    let pred = |e: (Seq<char>, Model)| e.0 != "_meta"@;
    if o.len() == 0 {
        reveal(Seq::filter);
        assert(characters_of(o) =~= o);
    } else {
        let init = o.drop_last();
        let e = o.last();
        assert(o =~= init.push(e));
        init.lemma_filter_push(e, pred);
        lemma_updates_skip_meta(init);
        if pred(e) {
            assert(characters_of(init).push(e).drop_last() =~= characters_of(init));
        } else {
            assert(updates_in(o) =~= updates_in(init) + Seq::<UpdateView>::empty());
        }
    }
}

/// Filtering is unchanged by putting in an element that the filter drops.
proof fn lemma_filter_insert_dropped(t: Seq<(Seq<char>, Model)>, p: int, x: (Seq<char>, Model))
    requires
        0 <= p <= t.len(),
        x.0 == "_meta"@,
    ensures
        characters_of(t.insert(p, x)) == characters_of(t),
{
    let pred = |e: (Seq<char>, Model)| e.0 != "_meta"@;
    let a = t.take(p);
    let b = t.skip(p);
    assert(t =~= a + b);
    assert(t.insert(p, x) =~= a + seq![x] + b);
    Seq::filter_distributes_over_add(a, b, pred);
    Seq::filter_distributes_over_add(a + seq![x], b, pred);
    Seq::filter_distributes_over_add(a, seq![x], pred);
    reveal_with_fuel(Seq::filter, 2);
    assert(seq![x].filter(pred) =~= Seq::<(Seq<char>, Model)>::empty());
    assert(a.filter(pred) + Seq::<(Seq<char>, Model)>::empty() =~= a.filter(pred));
}

/// Filtering is unchanged by replacing, with another, an element that it drops.
proof fn lemma_filter_update_dropped(t: Seq<(Seq<char>, Model)>, p: int, x: (Seq<char>, Model))
    requires
        0 <= p < t.len(),
        t[p].0 == "_meta"@,
        x.0 == "_meta"@,
    ensures
        characters_of(t.update(p, x)) == characters_of(t),
{
    let rest = t.remove(p);
    assert(t =~= rest.insert(p, t[p]));
    assert(t.update(p, x) =~= rest.insert(p, x));
    lemma_filter_insert_dropped(rest, p, t[p]);
    lemma_filter_insert_dropped(rest, p, x);
}

/// Setting the entries of a sorted table `c` in turn, on a table holding only
/// `_meta`, gives the entries of `c` besides `_meta`, in order.
proof fn lemma_insert_all_characters(meta: Model, c: Seq<(Seq<char>, Model)>)
    requires
        keys_sorted(c),
    ensures
        characters_of(insert_all(seq![("_meta"@, meta)], c)) == characters_of(c),
        keys_sorted(insert_all(seq![("_meta"@, meta)], c)),
        c.len() > 0 ==> forall|i: int|
            0 <= i < insert_all(seq![("_meta"@, meta)], c).len() ==> ({
                let key = (#[trigger] insert_all(seq![("_meta"@, meta)], c)[i]).0;
                key == "_meta"@ || key == c.last().0 || seq_lt(key, c.last().0)
            }),
        c.len() == 0 ==> forall|i: int|
            0 <= i < insert_all(seq![("_meta"@, meta)], c).len() ==> (#[trigger] insert_all(
                seq![("_meta"@, meta)],
                c,
            )[i]).0 == "_meta"@,
    decreases c.len(),
{
    let base = seq![("_meta"@, meta)];
    let pred = |e: (Seq<char>, Model)| e.0 != "_meta"@;
    if c.len() == 0 {
        reveal_with_fuel(Seq::filter, 2);
        assert(characters_of(c) =~= Seq::<(Seq<char>, Model)>::empty());
        assert(base.drop_last() =~= Seq::<(Seq<char>, Model)>::empty());
        assert(characters_of(base) =~= Seq::<(Seq<char>, Model)>::empty());
    } else {
        let c0 = c.drop_last();
        let (k, v) = c.last();
        assert(keys_sorted(c0));
        lemma_insert_all_characters(meta, c0);
        let t0 = insert_all(base, c0);
        let t = obj_insert(t0, k, v);
        assert(insert_all(base, c) == t);
        lemma_obj_insert_sorted(t0, k, v);
        let p = lower_bound(t0, k);
        lemma_lower_bound_facts(t0, k, 0);
        // Every key of `t0` but `_meta` sorts before `k`.
        assert forall|i: int| 0 <= i < t0.len() && t0[i].0 != "_meta"@ implies seq_lt(
            #[trigger] t0[i].0,
            k,
        ) by {
            if c0.len() > 0 {
                assert(seq_lt(c0.last().0, k)) by {
                    assert(c0.last() == c[c.len() - 2]);
                }
                if t0[i].0 != c0.last().0 {
                    lemma_seq_lt_transitive(t0[i].0, c0.last().0, k);
                }
            }
        }
        // So from `p` on, only `_meta` stands.
        assert forall|i: int| p <= i < t0.len() implies (#[trigger] t0[i]).0 == "_meta"@ by {
            if t0[i].0 != "_meta"@ {
                if i == p {
                } else {
                    lemma_seq_lt_total(t0[p].0, k);
                    assert(seq_lt(t0[p].0, t0[i].0));
                    if t0[p].0 != k {
                        lemma_seq_lt_transitive(k, t0[p].0, t0[i].0);
                    }
                    lemma_seq_lt_asymmetric(t0[i].0, k);
                }
            }
        }
        c0.lemma_filter_push((k, v), pred);
        assert(c =~= c0.push((k, v)));
        if k == "_meta"@ {
            if p < t0.len() && t0[p].0 == k {
                lemma_filter_update_dropped(t0, p, (k, v));
            } else {
                lemma_filter_insert_dropped(t0, p, (k, v));
            }
        } else {
            let a = t0.take(p);
            let b = t0.skip(p);
            assert(t0 =~= a + b);
            assert(!(p < t0.len() && t0[p].0 == k));
            assert(t =~= a + seq![(k, v)] + b);
            Seq::filter_distributes_over_add(a, b, pred);
            Seq::filter_distributes_over_add(a + seq![(k, v)], b, pred);
            Seq::filter_distributes_over_add(a, seq![(k, v)], pred);
            reveal_with_fuel(Seq::filter, 2);
            assert(seq![(k, v)].filter(pred) =~= seq![(k, v)]);
            assert forall|i: int| 0 <= i < b.len() implies !pred(#[trigger] b[i]) by {
                assert(b[i] == t0[p + i]);
            }
            assert(b.all(|e: (Seq<char>, Model)| !pred(e)));
            b.lemma_all_neg_filter_empty(pred);
            assert(b.filter(pred) =~= Seq::<(Seq<char>, Model)>::empty());
            assert(a.filter(pred) + seq![(k, v)] + Seq::<(Seq<char>, Model)>::empty() =~= (
            a.filter(pred) + Seq::<(Seq<char>, Model)>::empty()).push((k, v)));
        }
        assert forall|i: int| 0 <= i < t.len() implies ({
            let key = (#[trigger] t[i]).0;
            key == "_meta"@ || key == c.last().0 || seq_lt(key, c.last().0)
        }) by {
            if p < t0.len() && t0[p].0 == k {
                if i != p {
                    assert(t[i] == t0[i]);
                }
            } else if i < p {
                assert(t[i] == t0[i]);
            } else if i > p {
                assert(t[i] == t0[i - 1]);
            }
        }
    }
}

/// The BiS file written for an export, when read back, marks obtained exactly
/// the items that the export's characters mark obtained, character by
/// character in key order.
pub proof fn lemma_written_bis_obtained(api: Model, downloaded_at: i64, c: Seq<(Seq<char>, Model)>)
    requires
        field(api, "characters"@) == Some(Model::Object(c)),
        keys_sorted(c),
        writable(bis_model(api, downloaded_at)),
    ensures
        read_saved_variable(
            saved_variable_text("CharTrackerBiS"@, bis_model(api, downloaded_at)),
            "CharTrackerBiS"@,
        ) == Scan::Done(
            bis_model(api, downloaded_at),
            render(bis_model(api, downloaded_at), seq![]).len() as int,
        ),
        obtained_in(bis_model(api, downloaded_at)) == updates_in(c),
{
    lemma_written_reads_back("CharTrackerBiS"@, bis_model(api, downloaded_at));
    let version = match int_of(field(api, "version"@)) {
        Some(v) => v,
        None => 1,
    };
    let meta = meta_model(version, downloaded_at);
    let t = insert_all(seq![("_meta"@, meta)], c);
    lemma_insert_all_characters(meta, c);
    lemma_updates_skip_meta(t);
    lemma_updates_skip_meta(c);
}

} // verus!
