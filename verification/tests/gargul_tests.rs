use raidhub_companion::gargul::{
    capitalize_first, extract_item_name, parse_gargul_gdkp, parse_gargul_gdkp_checked,
    split_player_guid, Amount,
};

#[test]
fn test_extract_item_name() {
    assert_eq!(
        extract_item_name(
            Some("|cffa335ee|Hitem:19019::::::::80:::::|h[Thunderfury, Blessed Blade of the Windseeker]|h|r"),
            19019
        ),
        "Thunderfury, Blessed Blade of the Windseeker"
    );
}

#[test]
fn test_extract_item_name_fallback() {
    assert_eq!(extract_item_name(None, 12345), "Item #12345");
}

#[test]
fn test_split_player_guid() {
    let (name, realm) = split_player_guid("arthas-frostmourne");
    assert_eq!(name, "arthas");
    assert_eq!(realm, "frostmourne");
}

#[test]
fn test_capitalize_first() {
    assert_eq!(capitalize_first("arthas"), "Arthas");
    assert_eq!(capitalize_first(""), "");
    assert_eq!(capitalize_first("a"), "A");
}

#[test]
fn test_parse_empty_gargul() {
    let lua = r#"GargulDB = {
            ["GDKP"] = {
                ["Queue"] = {},
            },
        }"#;
    let result = parse_gargul_gdkp(lua).unwrap();
    assert_eq!(result.sessions.len(), 0);
}

#[test]
fn test_parse_session_with_auctions() {
    let lua = r#"GargulDB = {
            ["GDKP"] = {
                ["Ledger"] = {
                    ["1706792400abc123"] = {
                        ["ID"] = "1706792400abc123",
                        ["title"] = "Test GDKP Run",
                        ["createdAt"] = 1706792400,
                        ["lockedAt"] = 1706799600,
                        ["managementCut"] = 10,
                        ["Auctions"] = {
                            ["1706793000def456"] = {
                                ["ID"] = "1706793000def456",
                                ["itemID"] = 19019,
                                ["itemLink"] = "|cffa335ee|Hitem:19019::::::::80:::::|h[Thunderfury]|h|r",
                                ["price"] = 25000,
                                ["createdAt"] = 1706793000,
                                ["Winner"] = {
                                    ["name"] = "Stabby",
                                    ["realm"] = "Everlook",
                                    ["class"] = "ROGUE",
                                    ["guid"] = "stabby-everlook",
                                },
                                ["CreatedBy"] = {
                                    ["name"] = "Lootmaster",
                                    ["realm"] = "Everlook",
                                    ["class"] = "PALADIN",
                                },
                            },
                        },
                        ["Pot"] = {
                            ["Cuts"] = {
                                ["stabby-everlook"] = 1125.5,
                                ["lootmaster-everlook"] = 1125.5,
                            },
                        },
                    },
                },
                ["Queue"] = {},
            },
        }"#;

    let result = parse_gargul_gdkp(lua).unwrap();
    assert_eq!(result.sessions.len(), 1);

    let session = &result.sessions[0];
    assert_eq!(session.id, "1706792400abc123");
    assert_eq!(session.title, "Test GDKP Run");
    assert_eq!(session.locked_at, Some(1706799600));
    assert_eq!(session.total_pot, 25000);
    assert_eq!(session.auctions.len(), 1);
    assert_eq!(session.cuts.len(), 2);

    let auction = &session.auctions[0];
    assert_eq!(auction.item_name, "Thunderfury");
    assert_eq!(auction.price, 25000);
    assert_eq!(auction.winner_name, "Stabby");
    assert_eq!(auction.winner_class, "ROGUE");

    // Check cuts (sorted by name)
    assert_eq!(session.cuts[0].player_name, "Lootmaster");
    assert_eq!(session.cuts[1].player_name, "Stabby");
}

#[test]
fn test_deleted_sessions_skipped() {
    let lua = r#"GargulDB = {
            ["GDKP"] = {
                ["Ledger"] = {
                    ["deleted_session"] = {
                        ["ID"] = "deleted_session",
                        ["title"] = "Deleted Run",
                        ["createdAt"] = 1706792400,
                        ["deletedAt"] = 1706800000,
                        ["Auctions"] = {},
                    },
                },
                ["Queue"] = {},
            },
        }"#;

    let result = parse_gargul_gdkp(lua).unwrap();
    assert_eq!(result.sessions.len(), 0);
}

#[test]
fn test_deleted_auctions_not_in_pot() {
    let lua = r#"GargulDB = {
            ["GDKP"] = {
                ["Ledger"] = {
                    ["sess1"] = {
                        ["ID"] = "sess1",
                        ["title"] = "Test",
                        ["createdAt"] = 1706792400,
                        ["lockedAt"] = 1706799600,
                        ["Auctions"] = {
                            ["auc1"] = {
                                ["ID"] = "auc1",
                                ["itemID"] = 100,
                                ["price"] = 5000,
                                ["createdAt"] = 1706793000,
                                ["Winner"] = {
                                    ["name"] = "Buyer",
                                    ["realm"] = "Realm",
                                    ["class"] = "WARRIOR",
                                },
                            },
                            ["auc2"] = {
                                ["ID"] = "auc2",
                                ["itemID"] = 200,
                                ["price"] = 3000,
                                ["deletedAt"] = 1706794000,
                                ["createdAt"] = 1706793500,
                                ["Winner"] = {
                                    ["name"] = "Other",
                                    ["realm"] = "Realm",
                                    ["class"] = "MAGE",
                                },
                            },
                        },
                        ["Pot"] = {
                            ["Cuts"] = {},
                        },
                    },
                },
                ["Queue"] = {},
            },
        }"#;

    let result = parse_gargul_gdkp(lua).unwrap();
    let session = &result.sessions[0];
    // Only non-deleted auction counts toward pot
    assert_eq!(session.total_pot, 5000);
    // Both auctions are present (API filters deleted ones)
    assert_eq!(session.auctions.len(), 2);
}

// ------------------------------------------------------------------
// Further cases
// ------------------------------------------------------------------

#[test]
fn gargul_details_of_a_session() {
    let lua = r#"GargulDB = {
            ["GDKP"] = {
                ["Ledger"] = {
                    ["s1"] = {
                        ["createdAt"] = 20,
                        ["managementCut"] = 12.5,
                        ["Auctions"] = {
                            ["b"] = {
                                ["itemID"] = 7,
                                ["price"] = -5,
                                ["createdAt"] = 3,
                                ["Winner"] = { ["guid"] = "zed-realm", ["class"] = "MAGE" },
                                ["Bids"] = {
                                    ["1"] = { ["bidder"] = "amy-realm", ["Bidder"] = { ["class"] = "DRUID" } },
                                },
                            },
                            ["a"] = {
                                ["itemLink"] = "no brackets here",
                                ["itemID"] = 9,
                                ["price"] = 100,
                                ["createdAt"] = 3,
                            },
                        },
                        ["Pot"] = {
                            ["Cuts"] = {
                                ["zed-realm"] = 40,
                                ["amy-realm"] = 60,
                                ["bob"] = "not a number",
                            },
                        },
                    },
                    ["s0"] = { ["createdAt"] = 10, ["title"] = "First" },
                },
            },
        }"#;
    let result = parse_gargul_gdkp(lua).unwrap();
    assert_eq!(result.sessions.len(), 2);
    // Ordered by creation time.
    assert_eq!(result.sessions[0].id, "s0");
    assert_eq!(result.sessions[0].title, "First");
    let s = &result.sessions[1];
    assert_eq!(s.id, "s1");
    assert_eq!(s.title, "Untitled Session");
    assert_eq!(s.locked_at, None);
    match &s.management_cut {
        Some(Amount::Decimal(t)) => assert_eq!(t.as_str(), "12.5"),
        other => panic!("unexpected management cut {:?}", other),
    }
    // Equal creation times keep table order ("a" before "b").
    assert_eq!(s.auctions[0].id, "a");
    assert_eq!(s.auctions[0].item_name, "Item #9");
    assert_eq!(s.auctions[0].item_link.as_deref(), Some("no brackets here"));
    assert_eq!(s.auctions[1].id, "b");
    assert_eq!(s.auctions[1].winner_name, "");
    // A negative price is not part of the pot.
    assert_eq!(s.total_pot, 100);
    // Cuts: only numbers, ordered by name, with classes from winners and bidders.
    assert_eq!(s.cuts.len(), 2);
    assert_eq!(s.cuts[0].player_name, "Amy");
    assert_eq!(s.cuts[0].player_realm, "Realm");
    assert_eq!(s.cuts[0].player_class, "DRUID");
    assert!(matches!(s.cuts[0].amount, Amount::Int(60)));
    assert_eq!(s.cuts[1].player_name, "Zed");
    assert_eq!(s.cuts[1].player_class, "MAGE");
}

#[test]
fn gargul_unreadable_file_is_an_error() {
    let err = parse_gargul_gdkp("Nothing = {}").unwrap_err();
    assert_eq!(
        err,
        "Failed to parse GargulDB: Parse error at position 0: variable 'GargulDB' not found in file"
    );
}

#[test]
fn gargul_split_without_dash_and_non_ascii_capital() {
    let (name, realm) = split_player_guid("solo");
    assert_eq!(name, "solo");
    assert_eq!(realm, "");
    let (name, realm) = split_player_guid("a-b-c");
    assert_eq!(name, "a");
    assert_eq!(realm, "b-c");
    assert_eq!(capitalize_first("éclair"), "Éclair");
    assert_eq!(capitalize_first("ßx"), "SSx");
}

#[test]
fn gargul_item_name_needs_both_markers() {
    assert_eq!(extract_item_name(Some("|h[Half"), 5), "Item #5");
    assert_eq!(extract_item_name(Some("x|h[]|h"), 5), "");
    assert_eq!(extract_item_name(Some("|h[A]|h|h[B]|h"), -3), "A");
    assert_eq!(extract_item_name(None, -3), "Item #-3");
}

#[test]
fn gargul_checked_reading() {
    assert!(parse_gargul_gdkp_checked("GargulDB = { [9223372036854775807] = 1, 2 }").is_none());
    let p = parse_gargul_gdkp_checked("GargulDB = { GDKP = { Ledger = {} } }").unwrap().unwrap();
    assert!(p.sessions.is_empty());
    let e = parse_gargul_gdkp_checked("GargulDB = {").unwrap().unwrap_err();
    assert!(e.starts_with("Failed to parse GargulDB: "));
}
