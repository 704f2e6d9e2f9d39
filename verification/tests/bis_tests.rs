use raidhub_companion::bis::{bis_saved_variables, bis_saved_variables_at, obtained_items, parse_obtained_items,
    parse_obtained_items_checked};
use raidhub_companion::lua_parser::parse_saved_variable;
use raidhub_companion::value::{table_insert, Value};

fn obj(entries: Vec<(&str, Value)>) -> Value {
    let mut t = Vec::new();
    for (k, v) in entries {
        table_insert(&mut t, k.to_string(), v);
    }
    Value::Object(t)
}

fn s(x: &str) -> Value {
    Value::Str(x.to_string())
}

fn api_response() -> Value {
    obj(vec![
        (
            "characters",
            obj(vec![(
                "Arthas-Thekal",
                obj(vec![
                    ("list_name", s("Main Spec")),
                    ("character_class", s("DEATHKNIGHT")),
                    ("character_spec", s("Frost")),
                    (
                        "items",
                        Value::Array(vec![obj(vec![
                            ("item_id", Value::Int(95814)),
                            ("item_name", s("Unerring Vision of Lei Shen")),
                            ("slot_type", s("Trinket")),
                            ("source", s("Lei Shen")),
                            ("source_normalized", s("lei shen")),
                            ("priority", Value::Int(1)),
                            ("is_obtained", Value::Bool(false)),
                            ("bis_list_item_id", s("abc-123")),
                        ])]),
                    ),
                ]),
            )]),
        ),
        ("version", Value::Int(1)),
        ("timestamp", s("2026-02-18T12:00:00Z")),
    ])
}

#[test]
fn test_write_bis_to_saved_variables() {
    let content = bis_saved_variables(&api_response()).unwrap();
    assert!(content.contains("CharTrackerBiS"));
    assert!(content.contains("Arthas-Thekal"));
    assert!(content.contains("Unerring Vision of Lei Shen"));
}

#[test]
fn test_read_obtained_items() {
    let lua_content = r#"
CharTrackerBiS = {
    ["_meta"] = {
        ["version"] = 1,
    },
    ["Arthas-Thekal"] = {
        ["items"] = {
            [1] = {
                ["item_id"] = 95814,
                ["item_name"] = "Unerring Vision",
                ["is_obtained"] = true,
                ["obtained_at"] = 1708300000,
                ["bis_list_item_id"] = "abc-123",
            },
            [2] = {
                ["item_id"] = 95810,
                ["item_name"] = "Other Item",
                ["is_obtained"] = false,
                ["bis_list_item_id"] = "def-456",
            },
        },
    },
}
"#;

    let obtained = parse_obtained_items(lua_content).unwrap();
    assert_eq!(obtained.len(), 1);
    assert_eq!(obtained[0].bis_list_item_id, "abc-123");
    assert_eq!(obtained[0].is_obtained, true);
    assert_eq!(obtained[0].obtained_at, Some(1708300000));
}

// ------------------------------------------------------------------
// Further cases
// ------------------------------------------------------------------

#[test]
fn bis_file_is_exact_and_reads_back() {
    let api = obj(vec![("characters", obj(vec![("A-B", obj(vec![("n", Value::Int(2))]))])), ("version", Value::Int(4))]);
    let content = bis_saved_variables_at(&api, 1700000000).unwrap();
    assert_eq!(
        content,
        "CharTrackerBiS = {\n\t[\"A-B\"] = {\n\t\t[\"n\"] = 2,\n\t},\n\t[\"_meta\"] = {\n\t\t[\"downloaded_at\"] = 1700000000,\n\t\t[\"source\"] = \"goldschweine.de\",\n\t\t[\"version\"] = 4,\n\t},\n}\n"
    );
    let back = parse_saved_variable(&content, "CharTrackerBiS").unwrap();
    let meta = back.get("_meta").unwrap();
    assert_eq!(meta.get("downloaded_at").unwrap().as_i64(), Some(1700000000));
    assert_eq!(meta.get("version").unwrap().as_i64(), Some(4));
    assert_eq!(back.get("A-B").unwrap().get("n").unwrap().as_i64(), Some(2));
}

#[test]
fn bis_missing_characters_is_an_error_and_version_defaults() {
    let err = bis_saved_variables_at(&obj(vec![("version", Value::Int(3))]), 5).unwrap_err();
    assert_eq!(err, "Missing 'characters' in API response");
    let content = bis_saved_variables_at(&obj(vec![("characters", s("none"))]), 5).unwrap();
    assert!(content.contains("[\"version\"] = 1,"));
    assert!(!content.contains("none"));
}

#[test]
fn bis_character_named_meta_replaces_it() {
    let api = obj(vec![("characters", obj(vec![("_meta", s("mine"))]))]);
    let content = bis_saved_variables_at(&api, 5).unwrap();
    assert_eq!(content, "CharTrackerBiS = {\n\t[\"_meta\"] = \"mine\",\n}\n");
}

#[test]
fn bis_obtained_items_from_tables_and_skipping_meta() {
    let item = |id: &str, obtained: bool| obj(vec![("bis_list_item_id", s(id)), ("is_obtained", Value::Bool(obtained))]);
    let data = obj(vec![
        ("_meta", obj(vec![("items", Value::Array(vec![item("meta", true)]))])),
        ("B", obj(vec![("items", obj(vec![("x", item("b1", true)), ("y", item("b2", true))]))])),
        ("A", obj(vec![("items", Value::Array(vec![item("a1", false), item("a2", true), obj(vec![("is_obtained", Value::Bool(true))])]))])),
        ("C", obj(vec![("items", s("nothing"))])),
    ]);
    let found = obtained_items(&data);
    let ids: Vec<&str> = found.iter().map(|u| u.bis_list_item_id.as_str()).collect();
    assert_eq!(ids, vec!["a2", "b1", "b2"]);
    assert!(found.iter().all(|u| u.is_obtained && u.obtained_at.is_none()));
}

#[test]
fn bis_unreadable_file_is_an_error() {
    let err = parse_obtained_items("Other = {}").unwrap_err();
    assert_eq!(
        err,
        "Failed to parse CharTrackerBiS.lua: Parse error at position 0: variable 'CharTrackerBiS' not found in file"
    );
}

#[test]
fn bis_written_file_reads_back_the_obtained_items() {
    let item = |id: &str, obtained: bool, at: i64| {
        obj(vec![("bis_list_item_id", s(id)), ("is_obtained", Value::Bool(obtained)), ("obtained_at", Value::Int(at))])
    };
    let characters = obj(vec![
        ("Zed-Realm", obj(vec![("items", Value::Array(vec![item("z1", true, 5), item("z2", false, 6)]))])),
        ("Amy-Realm", obj(vec![("items", Value::Array(vec![item("a1", true, 7)]))])),
    ]);
    let export = obj(vec![("characters", characters.duplicate())]);
    let content = bis_saved_variables_at(&export, 42).unwrap();
    let back = parse_obtained_items(&content).unwrap();
    let direct = obtained_items(&characters);
    let ids = |v: &Vec<raidhub_companion::bis::ObtainedItemUpdate>| -> Vec<(String, Option<i64>)> {
        v.iter().map(|u| (u.bis_list_item_id.clone(), u.obtained_at)).collect()
    };
    assert_eq!(ids(&back), ids(&direct));
    assert_eq!(ids(&back), vec![("a1".to_string(), Some(7)), ("z1".to_string(), Some(5))]);
}

#[test]
fn obtained_items_checked_reading() {
    assert!(parse_obtained_items_checked("CharTrackerBiS = { [9223372036854775807] = 1, 2 }").is_none());
    let ok = parse_obtained_items_checked("CharTrackerBiS = { _meta = { v = 1 } }").unwrap().unwrap();
    assert!(ok.is_empty());
    let e = parse_obtained_items_checked("Other = {}").unwrap().unwrap_err();
    assert_eq!(
        e,
        "Failed to parse CharTrackerBiS.lua: Parse error at position 0: variable 'CharTrackerBiS' not found in file"
    );
}
