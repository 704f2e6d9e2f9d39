use raidhub_companion::lua_parser;
use raidhub_companion::lua_writer::{write_lua_string, write_saved_variable};
use raidhub_companion::value::{table_insert, Value};

fn obj(entries: Vec<(&str, Value)>) -> Value {
    let mut t = Vec::new();
    for (k, v) in entries {
        table_insert(&mut t, k.to_string(), v);
    }
    Value::Object(t)
}

fn s(x: &str) -> Value {
    Value::Str(x.to_string())
}

#[test]
fn test_simple_string() {
    let val = s("hello world");
    let lua = write_saved_variable("TestVar", &val);
    assert_eq!(lua, "TestVar = \"hello world\"\n");
}

#[test]
fn test_number() {
    let val = Value::Int(42);
    let lua = write_saved_variable("TestVar", &val);
    assert_eq!(lua, "TestVar = 42\n");
}

#[test]
fn test_boolean() {
    let val = Value::Bool(true);
    let lua = write_saved_variable("TestVar", &val);
    assert_eq!(lua, "TestVar = true\n");
}

#[test]
fn test_simple_table() {
    let val = obj(vec![("name", s("Test")), ("value", Value::Int(123))]);
    let lua = write_saved_variable("TestVar", &val);
    assert!(lua.contains("[\"name\"] = \"Test\""));
    assert!(lua.contains("[\"value\"] = 123"));
}

#[test]
fn test_array() {
    let val = Value::Array(vec![Value::Int(1), Value::Int(2), Value::Int(3)]);
    let lua = write_saved_variable("TestVar", &val);
    assert!(lua.contains("[1] = 1"));
    assert!(lua.contains("[2] = 2"));
    assert!(lua.contains("[3] = 3"));
}

#[test]
fn test_string_escaping() {
    let val = s("He said \"hello\"");
    let lua = write_saved_variable("TestVar", &val);
    assert!(lua.contains("\\\"hello\\\""));
}

#[test]
fn test_roundtrip_bis_data() {
    let bis = obj(vec![
        ("_meta", obj(vec![("version", Value::Int(1)), ("downloaded_at", Value::Int(1708300000))])),
        (
            "Arthas-Thekal",
            obj(vec![
                ("list_name", s("Main Spec")),
                ("character_class", s("DEATHKNIGHT")),
                ("character_spec", s("Frost")),
                (
                    "items",
                    Value::Array(vec![obj(vec![
                        ("item_id", Value::Int(95814)),
                        ("item_name", s("Unerring Vision of Lei Shen")),
                        ("slot_type", s("Trinket")),
                        ("source", s("Lei Shen")),
                        ("source_normalized", s("lei shen")),
                        ("priority", Value::Int(1)),
                        ("is_obtained", Value::Bool(false)),
                        ("bis_list_item_id", s("abc-123")),
                    ])]),
                ),
            ]),
        ),
    ]);

    let lua = write_saved_variable("CharTrackerBiS", &bis);

    let ct_bis = lua_parser::parse_saved_variable(&lua, "CharTrackerBiS")
        .expect("Failed to parse generated Lua");

    let meta = ct_bis.get("_meta").expect("Missing _meta");
    assert_eq!(meta.get("version").unwrap().as_i64().unwrap(), 1);

    let arthas = ct_bis.get("Arthas-Thekal").expect("Missing Arthas-Thekal");
    assert_eq!(arthas.get("list_name").unwrap().as_str().unwrap(), "Main Spec");

    let items = arthas.get("items").expect("Missing items");
    let items_arr = items.as_array().expect("items should be an array");
    let first = &items_arr[0];
    assert_eq!(first.get("item_id").unwrap().as_i64().unwrap(), 95814);
    assert_eq!(first.get("item_name").unwrap().as_str().unwrap(), "Unerring Vision of Lei Shen");
    assert_eq!(first.get("is_obtained").unwrap().as_bool().unwrap(), false);
}

#[test]
fn test_nil_value() {
    let val = Value::Null;
    let lua = write_saved_variable("TestVar", &val);
    assert_eq!(lua, "TestVar = nil\n");
}

#[test]
fn test_nested_tables() {
    let val = obj(vec![("outer", obj(vec![("inner", s("value"))]))]);
    let lua = write_saved_variable("TestVar", &val);
    assert!(lua.contains("[\"outer\"] = {"));
    assert!(lua.contains("[\"inner\"] = \"value\""));
}

// ------------------------------------------------------------------
// Exact layout of the writer
// ------------------------------------------------------------------

#[test]
fn writer_layout_is_tab_indented() {
    let val = obj(vec![
        ("b", Value::Array(vec![Value::Bool(false)])),
        ("a", obj(vec![("x", Value::Null)])),
        ("c", Value::Array(vec![])),
    ]);
    let lua = write_saved_variable("V", &val);
    assert_eq!(
        lua,
        "V = {\n\t[\"a\"] = {\n\t\t[\"x\"] = nil,\n\t},\n\t[\"b\"] = {\n\t\t[1] = false,\n\t},\n\t[\"c\"] = {},\n}\n"
    );
}

#[test]
fn writer_escapes_control_characters_and_keys() {
    let val = obj(vec![("k\"\\", s("a\nb\rc\td\0e\\"))]);
    let lua = write_saved_variable("V", &val);
    assert_eq!(lua, "V = {\n\t[\"k\\\"\\\\\"] = \"a\\nb\\rc\\td\\0e\\\\\",\n}\n");
}

#[test]
fn writer_negative_and_decimal_numbers() {
    let val = Value::Array(vec![Value::Int(-7), Value::Float("2.5".to_string()), Value::Int(i64::MIN)]);
    let lua = write_saved_variable("V", &val);
    assert_eq!(lua, "V = {\n\t[1] = -7,\n\t[2] = 2.5,\n\t[3] = -9223372036854775808,\n}\n");
}

#[test]
fn written_string_reads_back() {
    for x in ["plain", "quote \" and 'single'", "back\\slash\n\ttab\r", "Grüße", ""] {
        let mut out = String::new();
        write_lua_string(&mut out, x);
        let mut p = lua_parser::Parser::new(&out);
        assert_eq!(p.parse_string().ok().unwrap(), x);
        assert_eq!(p.pos, out.len());
    }
}
