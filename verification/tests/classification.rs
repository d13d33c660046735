use supreme_drafter::catalog::{classify, is_basic, Card, Catalog, RawCard, SetTable};

fn record(name: &str, mana_value: usize, rarity: char, image: i64) -> RawCard {
    RawCard {
        name: String::from(name),
        mana_value: Some(mana_value),
        rarity_code: Some(rarity),
        image_id: Some(image),
    }
}

fn names(pool: &[Card]) -> Vec<String> {
    pool.iter().map(|c| c.name.clone()).collect()
}

#[test]
fn classify_dispatches_on_rarity_code() {
    let table = SetTable {
        set_id: String::from("ALP"),
        cards: vec![
            record("Bolt", 1, 'c', 10),
            record("Wurm", 6, 'r', 11),
            record("Drake", 3, 'u', 12),
            record("Dragon", 5, 'm', 13),
            record("Bear", 2, 'c', 14),
        ],
    };
    let pools = classify(&table).expect("well-formed table classifies");
    assert_eq!(names(&pools.commons), vec!["Bolt", "Bear"]);
    assert_eq!(names(&pools.rares), vec!["Wurm"]);
    assert_eq!(names(&pools.uncommons), vec!["Drake"]);
    assert_eq!(names(&pools.mythics), vec!["Dragon"]);
    assert!(pools.basics.is_empty());
}

#[test]
fn classify_keeps_card_fields() {
    let table = SetTable {
        set_id: String::from("ALP"),
        cards: vec![record("Bolt", 1, 'c', 42)],
    };
    let pools = classify(&table).unwrap();
    assert_eq!(pools.commons.len(), 1);
    assert_eq!(pools.commons[0].name, "Bolt");
    assert_eq!(pools.commons[0].mana_value, 1);
    assert_eq!(pools.commons[0].display_reference, 42);
    assert!(!pools.commons[0].is_selected);
}

#[test]
fn basics_leave_rarity_classification_whatever_their_code() {
    let table = SetTable {
        set_id: String::from("ALP"),
        cards: vec![
            record("Forest", 0, 'r', 1),
            record("Snow-Covered Island", 0, 'c', 2),
            record("Wurm", 6, 'r', 3),
        ],
    };
    let pools = classify(&table).unwrap();
    assert_eq!(names(&pools.basics), vec!["Forest", "Snow-Covered Island"]);
    assert_eq!(names(&pools.rares), vec!["Wurm"]);
}

#[test]
fn unknown_rarity_codes_are_dropped_silently() {
    let table = SetTable {
        set_id: String::from("ALP"),
        cards: vec![record("Oddity", 2, 'x', 1), record("Bear", 2, 'c', 2)],
    };
    let pools = classify(&table).unwrap();
    assert_eq!(names(&pools.commons), vec!["Bear"]);
    assert!(pools.mythics.is_empty());
    assert!(pools.rares.is_empty());
    assert!(pools.uncommons.is_empty());
    assert!(pools.basics.is_empty());
}

#[test]
fn malformed_record_fails_the_whole_set() {
    let table = SetTable {
        set_id: String::from("ALP"),
        cards: vec![
            record("Bear", 2, 'c', 2),
            RawCard {
                name: String::from("Broken"),
                mana_value: None,
                rarity_code: Some('c'),
                image_id: Some(3),
            },
            record("Bolt", 1, 'c', 4),
        ],
    };
    let err = classify(&table).expect_err("missing field fails classification");
    assert_eq!(err.card_name, "Broken");
}

#[test]
fn basic_land_allow_list_is_exact() {
    for name in [
        "Forest",
        "Mountain",
        "Swamp",
        "Plains",
        "Island",
        "Snow-Covered Forest",
        "Snow-Covered Mountain",
        "Snow-Covered Swamp",
        "Snow-Covered Plains",
        "Snow-Covered Island",
    ] {
        assert!(is_basic(name), "{name} is a basic land");
    }
    assert!(!is_basic("Forest Bear"));
    assert!(!is_basic("forest"));
    assert!(!is_basic(""));
    assert!(!is_basic("Snow-Covered"));
}

#[test]
fn an_empty_table_classifies_to_empty_pools() {
    let table = SetTable { set_id: String::from("ALP"), cards: vec![] };
    let pools = classify(&table).unwrap();
    assert!(pools.mythics.is_empty());
    assert!(pools.rares.is_empty());
    assert!(pools.uncommons.is_empty());
    assert!(pools.commons.is_empty());
    assert!(pools.basics.is_empty());
}

#[test]
fn catalog_check_accepts_distinct_names_and_refuses_duplicates() {
    let good = Catalog {
        sets: vec![
            SetTable { set_id: String::from("ALP"), cards: vec![record("Bear", 2, 'c', 1)] },
            SetTable { set_id: String::from("BET"), cards: vec![record("Bear", 2, 'c', 1)] },
        ],
    };
    assert!(good.check());
    let duplicate_card = Catalog {
        sets: vec![SetTable {
            set_id: String::from("ALP"),
            cards: vec![record("Bear", 2, 'c', 1), record("Bear", 3, 'r', 2)],
        }],
    };
    assert!(!duplicate_card.check());
    let duplicate_set = Catalog {
        sets: vec![
            SetTable { set_id: String::from("ALP"), cards: vec![] },
            SetTable { set_id: String::from("ALP"), cards: vec![] },
        ],
    };
    assert!(!duplicate_set.check());
}
