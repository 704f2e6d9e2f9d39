use raidhub_companion::lua_parser::{
    parse_chartracker_db, parse_saved_variable, parse_saved_variable_checked, Halt, Parser,
};
use raidhub_companion::value::{table_insert, Value};

fn at<'a>(v: &'a Value, key: &str) -> &'a Value {
    v.get(key).unwrap()
}

fn text(v: &Value) -> &str {
    v.as_str().unwrap()
}

#[test]
fn test_simple_string_table() {
    let lua = r#"TestDB = {
            ["name"] = "Hello",
            ["value"] = 42,
        }"#;
    let result = parse_saved_variable(lua, "TestDB").unwrap();
    assert_eq!(text(at(&result, "name")), "Hello");
    assert_eq!(at(&result, "value").as_i64(), Some(42));
}

#[test]
fn test_nested_table() {
    let lua = r#"TestDB = {
            ["basic"] = {
                ["name"] = "Arthas",
                ["level"] = 90,
            },
        }"#;
    let result = parse_saved_variable(lua, "TestDB").unwrap();
    assert_eq!(text(at(at(&result, "basic"), "name")), "Arthas");
    assert_eq!(at(at(&result, "basic"), "level").as_i64(), Some(90));
}

#[test]
fn test_array_table() {
    let lua = r#"TestDB = {
            ["items"] = {
                [1] = "sword",
                [2] = "shield",
                [3] = "potion",
            },
        }"#;
    let result = parse_saved_variable(lua, "TestDB").unwrap();
    let items = at(&result, "items").as_array().unwrap();
    assert_eq!(items.len(), 3);
    assert_eq!(text(&items[0]), "sword");
    assert_eq!(text(&items[1]), "shield");
    assert_eq!(text(&items[2]), "potion");
}

#[test]
fn test_boolean_and_nil() {
    let lua = r#"TestDB = {
            ["active"] = true,
            ["deleted"] = false,
            ["optional"] = nil,
        }"#;
    let result = parse_saved_variable(lua, "TestDB").unwrap();
    assert_eq!(at(&result, "active").as_bool(), Some(true));
    assert_eq!(at(&result, "deleted").as_bool(), Some(false));
    assert!(at(&result, "optional").is_null());
}

#[test]
fn test_negative_number() {
    let lua = r#"TestDB = {
            ["offset"] = -42,
            ["ratio"] = 3.14,
        }"#;
    let result = parse_saved_variable(lua, "TestDB").unwrap();
    assert_eq!(at(&result, "offset").as_i64(), Some(-42));
    match at(&result, "ratio") {
        Value::Float(t) => {
            assert_eq!(t.as_str(), "3.14");
            assert_eq!(t.parse::<f64>().unwrap(), 3.14);
        }
        other => panic!("expected a decimal number, got {:?}", other),
    }
}

#[test]
fn test_comments_ignored() {
    let lua = r#"-- This is a comment
        TestDB = {
            -- another comment
            ["name"] = "test", -- inline comment
        }"#;
    let result = parse_saved_variable(lua, "TestDB").unwrap();
    assert_eq!(text(at(&result, "name")), "test");
}

#[test]
fn test_bare_keys() {
    let lua = r#"TestDB = {
            name = "test",
            value = 42,
        }"#;
    let result = parse_saved_variable(lua, "TestDB").unwrap();
    assert_eq!(text(at(&result, "name")), "test");
    assert_eq!(at(&result, "value").as_i64(), Some(42));
}

#[test]
fn test_single_quoted_strings() {
    let lua = r#"TestDB = {
            ['name'] = 'hello world',
        }"#;
    let result = parse_saved_variable(lua, "TestDB").unwrap();
    assert_eq!(text(at(&result, "name")), "hello world");
}

#[test]
fn test_escaped_strings() {
    let lua = r#"TestDB = {
            ["path"] = "Interface\\Icons\\Spell_Holy",
        }"#;
    let result = parse_saved_variable(lua, "TestDB").unwrap();
    assert_eq!(text(at(&result, "path")), "Interface\\Icons\\Spell_Holy");
}

#[test]
fn test_chartracker_structure() {
    let lua = r#"CharTrackerDB = {
            ["version"] = "1.0.0",
            ["lastUpdate"] = 1705147800,
            ["characters"] = {
                ["Beispielchar-Eredar"] = {
                    ["basic"] = {
                        ["name"] = "Beispielchar",
                        ["realm"] = "Eredar",
                        ["class"] = "PALADIN",
                        ["race"] = "Human",
                        ["level"] = 90,
                        ["faction"] = "Alliance",
                        ["guild"] = "Meine Gilde",
                    },
                    ["gold"] = 1234567,
                    ["professions"] = {
                        [1] = {
                            ["type"] = "primary",
                            ["name"] = "Mining",
                            ["skill"] = 600,
                            ["max"] = 600,
                        },
                        [2] = {
                            ["type"] = "primary",
                            ["name"] = "Blacksmithing",
                            ["skill"] = 598,
                            ["max"] = 600,
                        },
                    },
                    ["timestamp"] = 1705147800,
                },
            },
        }"#;

    let result = parse_chartracker_db(lua).unwrap();
    assert_eq!(text(at(&result, "version")), "1.0.0");
    assert_eq!(at(&result, "lastUpdate").as_i64(), Some(1705147800));

    let character = at(at(&result, "characters"), "Beispielchar-Eredar");
    assert_eq!(text(at(at(character, "basic"), "name")), "Beispielchar");
    assert_eq!(text(at(at(character, "basic"), "class")), "PALADIN");
    assert_eq!(at(at(character, "basic"), "level").as_i64(), Some(90));
    assert_eq!(at(character, "gold").as_i64(), Some(1234567));

    let professions = at(character, "professions").as_array().unwrap();
    assert_eq!(professions.len(), 2);
    assert_eq!(text(at(&professions[0], "name")), "Mining");
    assert_eq!(text(at(&professions[1], "name")), "Blacksmithing");
}

#[test]
fn test_multiple_variables() {
    let lua = r#"CharTrackerDB = {
            ["version"] = "1.0.0",
        }
        CharTrackerSettings = {
            ["autoSaveInCities"] = true,
        }"#;

    let db = parse_saved_variable(lua, "CharTrackerDB").unwrap();
    assert_eq!(text(at(&db, "version")), "1.0.0");

    let settings = parse_saved_variable(lua, "CharTrackerSettings").unwrap();
    assert_eq!(at(&settings, "autoSaveInCities").as_bool(), Some(true));
}

#[test]
fn test_variable_not_found() {
    let lua = r#"SomeOtherDB = {}"#;
    let result = parse_saved_variable(lua, "CharTrackerDB");
    assert!(result.is_err());
}

#[test]
fn test_empty_table() {
    let lua = r#"TestDB = {}"#;
    let result = parse_saved_variable(lua, "TestDB").unwrap();
    assert!(result.is_object());
    assert_eq!(result.as_object().unwrap().len(), 0);
}

#[test]
fn test_implicit_array_entries() {
    let lua = r#"TestDB = {
            ["currencies"] = {
                {
                    ["id"] = 463446,
                    ["name"] = "Justice Points",
                    ["count"] = 475,
                },
                {
                    ["id"] = 134912,
                    ["name"] = "Ironpaw Token",
                    ["count"] = 1,
                },
            },
        }"#;
    let result = parse_saved_variable(lua, "TestDB").unwrap();
    let currencies = at(&result, "currencies").as_array().unwrap();
    assert_eq!(currencies.len(), 2);
    assert_eq!(at(&currencies[0], "id").as_i64(), Some(463446));
    assert_eq!(text(at(&currencies[0], "name")), "Justice Points");
    assert_eq!(text(at(&currencies[1], "name")), "Ironpaw Token");
}

#[test]
fn test_implicit_array_with_mixed_types() {
    let lua = r#"TestDB = {
            ["specs"] = {
                {
                    ["id"] = 1,
                    ["name"] = "Spec 0",
                },
                {
                    ["id"] = 2,
                    ["name"] = "Spec 0",
                },
            },
            ["version"] = "1.0.0",
        }"#;
    let result = parse_saved_variable(lua, "TestDB").unwrap();
    let specs = at(&result, "specs").as_array().unwrap();
    assert_eq!(specs.len(), 2);
    assert_eq!(at(&specs[0], "id").as_i64(), Some(1));
    assert_eq!(text(at(&result, "version")), "1.0.0");
}

#[test]
fn test_mixed_array_with_nested_objects() {
    let lua = r#"TestDB = {
            ["currencies"] = {
                [1] = {
                    ["id"] = 395,
                    ["name"] = "Justice Points",
                    ["count"] = 3500,
                },
                [2] = {
                    ["id"] = 396,
                    ["name"] = "Valor Points",
                    ["count"] = 980,
                },
            },
        }"#;
    let result = parse_saved_variable(lua, "TestDB").unwrap();
    let currencies = at(&result, "currencies").as_array().unwrap();
    assert_eq!(currencies.len(), 2);
    assert_eq!(text(at(&currencies[0], "name")), "Justice Points");
    assert_eq!(text(at(&currencies[1], "name")), "Valor Points");
}

// ------------------------------------------------------------------
// Further cases of the reader
// ------------------------------------------------------------------

#[test]
fn reader_error_message_and_position() {
    let err = parse_saved_variable("X = @", "X").unwrap_err();
    assert_eq!(err.position, 0);
    assert_eq!(err.describe(), format!("Parse error at position 0: {}", err.message));
    let missing = parse_saved_variable("Y = 1", "X").unwrap_err();
    assert_eq!(missing.message, "variable 'X' not found in file");
    assert_eq!(missing.position, 0);
}

#[test]
fn reader_unterminated_table_is_an_error() {
    let result = parse_saved_variable("X = { [\"a\"] = 1,", "X");
    assert!(result.is_err());
}

#[test]
fn reader_keys_come_out_in_ascending_order() {
    let result = parse_saved_variable("X = { zeta = 1, alpha = 2, mid = 3 }", "X").unwrap();
    let keys: Vec<&str> = result.as_object().unwrap().iter().map(|(k, _)| k.as_str()).collect();
    assert_eq!(keys, vec!["alpha", "mid", "zeta"]);
}

#[test]
fn reader_sparse_numeric_keys_make_a_table() {
    let result = parse_saved_variable("X = { [1] = \"a\", [3] = \"c\" }", "X").unwrap();
    assert!(result.is_object());
    assert_eq!(text(at(&result, "1")), "a");
    assert_eq!(text(at(&result, "3")), "c");
}

#[test]
fn reader_later_entry_replaces_earlier() {
    let result = parse_saved_variable("X = { a = 1, a = 2 }", "X").unwrap();
    assert_eq!(result.as_object().unwrap().len(), 1);
    assert_eq!(at(&result, "a").as_i64(), Some(2));
}

#[test]
fn reader_block_comment_and_escapes() {
    let lua = "X = --[[ skipped\n block ]] { s = \"a\\tb\\\"c\\n\" }";
    let result = parse_saved_variable(lua, "X").unwrap();
    assert_eq!(text(at(&result, "s")), "a\tb\"c\n");
}

#[test]
fn reader_stops_only_on_index_overflow() {
    // An implicit index after the largest integer.
    assert!(parse_saved_variable_checked("X = { [9223372036854775807] = 1, 2 }", "X").is_none());
    // Ordinary input is read, non-ASCII text included.
    let ok = parse_saved_variable_checked("X = \"ok\"", "X").unwrap().unwrap();
    assert_eq!(text(&ok), "ok");
    let e = parse_saved_variable_checked("X = \"é\"", "X").unwrap().unwrap();
    assert_eq!(text(&e), "é");
}

#[test]
fn reader_reads_non_ascii_text() {
    let lua = "X = {\n-- Über die Beute\n[\"Äpfel\"] = 1,\n[\"name\"] = \"Ölschläger\", --[[ Grüße ]]\n}";
    let result = parse_saved_variable(lua, "X").unwrap();
    assert_eq!(at(&result, "Äpfel").as_i64(), Some(1));
    assert_eq!(text(at(&result, "name")), "Ölschläger");
    let v = parse_saved_variable("X = -- é\n'éa'", "X").unwrap();
    assert_eq!(text(&v), "éa");
}

#[test]
fn reader_takes_the_named_variable_not_a_longer_name() {
    let result = parse_saved_variable("OtherTestDB = {1}\nTestDB = {2}", "TestDB").unwrap();
    let items = result.as_array().unwrap();
    assert_eq!(items.len(), 1);
    assert_eq!(items[0].as_i64(), Some(2));
    let result = parse_saved_variable("My_TestDB = 1\nTestDB = 3", "TestDB").unwrap();
    assert_eq!(result.as_i64(), Some(3));
    assert_eq!(
        parse_saved_variable("OtherTestDB = {1}", "TestDB").unwrap_err().message,
        "variable 'TestDB' not found in file"
    );
}

#[test]
fn reader_decimal_values_are_numbers() {
    let v = parse_saved_variable("X = { ratio = 3.14, small = -0.5 }", "X").unwrap();
    assert!(matches!(at(&v, "ratio"), Value::Float(t) if t.as_str() == "3.14"));
    assert!(matches!(at(&v, "small"), Value::Float(t) if t.as_str() == "-0.5"));
}

#[test]
fn reader_unicode_bare_key() {
    let result = parse_saved_variable("X = { ä = 1 }", "X").unwrap();
    assert_eq!(at(&result, "ä").as_i64(), Some(1));
}

#[test]
fn reader_decimal_keys_use_the_number_text() {
    let result = parse_saved_variable("X = { [1.50] = \"a\", [007.0] = \"b\" }", "X").unwrap();
    assert_eq!(text(at(&result, "1.5")), "a");
    assert_eq!(text(at(&result, "7.0")), "b");
    // A decimal value keeps the text it was written with.
    let v = parse_saved_variable("X = 1.50", "X").unwrap();
    assert!(matches!(v, Value::Float(ref t) if t.as_str() == "1.50"));
}

#[test]
fn tables_behave_as_maps() {
    let mut t = Vec::new();
    table_insert(&mut t, "b".to_string(), Value::Int(1));
    table_insert(&mut t, "a".to_string(), Value::Int(2));
    table_insert(&mut t, "b".to_string(), Value::Int(3));
    let v = Value::Object(t);
    assert_eq!(at(&v, "b").as_i64(), Some(3));
    assert_eq!(at(&v, "a").as_i64(), Some(2));
    assert!(v.get("c").is_none());
    let keys: Vec<&str> = v.as_object().unwrap().iter().map(|(k, _)| k.as_str()).collect();
    assert_eq!(keys, vec!["a", "b"]);
}

#[test]
fn reader_error_messages() {
    let msg = |lua: &str| parse_saved_variable(lua, "X").unwrap_err().message;
    assert_eq!(msg("X = { [\"a\"] 1 }"), "expected '=', found '1'");
    assert_eq!(msg("X = { [\"a\"]"), "expected '=', found end of input");
    assert_eq!(msg("X = \"abc\\"), "unexpected end of string escape");
    assert_eq!(msg("X = \"abc"), "unterminated string");
    assert_eq!(msg("X = -"), "expected number");
    assert_eq!(msg("X = 99999999999999999999"), "invalid integer: 99999999999999999999");
    assert_eq!(msg("X = foo"), "unexpected identifier: foo");
    assert_eq!(msg("X = @"), "unexpected character: '@'");
    assert_eq!(msg("X = "), "unexpected end of input");
    assert_eq!(msg("X = { foo }"), "unexpected identifier in table: foo");
    assert_eq!(msg("X = { = }"), "expected table key or '}'");
    assert_eq!(msg("Y = 1"), "variable 'X' not found in file");
}

#[test]
fn reader_error_positions_are_byte_offsets() {
    // Positions count bytes of the text after `X = `.
    let err = parse_saved_variable("X = { [\"a\"] 1 }", "X").unwrap_err();
    assert_eq!(err.position, 9);
    let err = parse_saved_variable("X = \"aé", "X").unwrap_err();
    assert_eq!(err.message, "unterminated string");
    assert_eq!(err.position, 4);
}

#[test]
fn parser_steps() {
    let mut p = Parser::new("  -- note\n é = 'x\\'y' ]");
    p.skip_whitespace_and_comments();
    assert_eq!(p.peek(), Some('é'));
    assert_eq!(p.pos, 11);
    assert_eq!(p.parse_identifier().unwrap(), "é");
    assert!(p.expect('=').is_ok());
    p.skip_whitespace_and_comments();
    assert_eq!(p.parse_string().ok().unwrap(), "x'y");
    match p.expect('}') {
        Err(Halt::Fail(e)) => {
            assert_eq!(e.message, "expected '}', found ']'");
            assert_eq!(e.position, p.pos);
        }
        _ => panic!("expected an error"),
    }
    assert_eq!(p.advance(), None);
    let e = p.error("stop");
    assert_eq!(e.message, "stop");
    assert_eq!(e.position, p.pos);
    // A comment with non-ASCII text is skipped; a lone `-` is not a comment.
    let mut q = Parser::new("-- Über\n}");
    q.skip_whitespace_and_comments();
    assert_eq!(q.peek(), Some('}'));
    let mut q = Parser::new("-é");
    q.skip_whitespace_and_comments();
    assert_eq!(q.peek(), Some('-'));
    let mut r = Parser::new(" é");
    r.skip_whitespace_and_comments();
    assert_eq!(r.peek(), Some('é'));
}

#[test]
fn parser_string_errors() {
    let mut p = Parser::new("");
    match p.parse_string() {
        Err(Halt::Fail(e)) => {
            assert_eq!(e.message, "expected string");
            assert_eq!(e.position, 0);
        }
        _ => panic!("expected an error"),
    }
    let mut p = Parser::new("é'");
    match p.parse_string() {
        Err(Halt::Fail(e)) => {
            assert_eq!(e.message, "expected quote, found 'é'");
            assert_eq!(e.position, 2);
        }
        _ => panic!("expected an error"),
    }
    let mut p = Parser::new("\"a\\qb\" rest");
    assert_eq!(p.parse_string().ok().unwrap(), "a\\qb");
    assert_eq!(p.pos, 6);
}

#[test]
fn parser_identifier_runs() {
    let mut p = Parser::new("9lives_x = 1");
    assert_eq!(p.parse_identifier().unwrap(), "9lives_x");
    assert_eq!(p.pos, 8);
    let mut p = Parser::new("  name");
    let e = p.parse_identifier().unwrap_err();
    assert_eq!(e.message, "expected identifier");
    assert_eq!(e.position, 0);
    assert_eq!(p.pos, 0);
}
