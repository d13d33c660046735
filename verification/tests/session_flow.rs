use supreme_drafter::catalog::{Card, Catalog, RawCard, SetTable};
use supreme_drafter::deck::SortedDeck;
use supreme_drafter::errors::DraftError;
use supreme_drafter::generator::{Pack, PackGenerator};
use supreme_drafter::session::{DraftSession, Phase};

fn record(name: &str, mana_value: usize, rarity: char, image: i64) -> RawCard {
    RawCard {
        name: String::from(name),
        mana_value: Some(mana_value),
        rarity_code: Some(rarity),
        image_id: Some(image),
    }
}

fn card(name: &str, mana_value: usize) -> Card {
    Card {
        name: String::from(name),
        mana_value,
        display_reference: 0,
        is_selected: false,
    }
}

/// A set with 2 mythics, 2 rares, 5 uncommons, 12 commons and one basic.
fn rich_set(set_id: &str) -> SetTable {
    let mut cards = vec![
        record("Dragon", 5, 'm', 1),
        record("Phoenix", 4, 'm', 2),
        record("Wurm", 6, 'r', 3),
        record("Angel", 5, 'r', 4),
        record("Forest", 0, 'c', 5),
    ];
    for i in 0..5 {
        cards.push(record(&format!("Uncommon {i}"), i, 'u', 10 + i as i64));
    }
    for i in 0..12 {
        cards.push(record(&format!("Common {i}"), i, 'c', 20 + i as i64));
    }
    SetTable { set_id: String::from(set_id), cards }
}

fn rich_catalog() -> Catalog {
    Catalog { sets: vec![rich_set("ALP")] }
}

#[test]
fn new_session_defaults_to_the_first_set_and_full_total() {
    let session = DraftSession::new(rich_catalog(), 18, 2, 1);
    assert_eq!(session.phase, Phase::Setup);
    assert_eq!(session.setup.len(), 1);
    assert_eq!(session.setup[0].0, "ALP");
    assert_eq!(session.setup[0].1, 18);
    assert_eq!(session.unassigned_pack_count(), 0);
}

#[test]
fn removing_the_last_configured_pair_is_a_no_op() {
    let mut session = DraftSession::new(rich_catalog(), 18, 2, 1);
    assert_eq!(session.setup.len(), 1);
    session.remove_set("ALP");
    assert_eq!(session.setup.len(), 1, "the configured pairs list is unchanged");
    assert_eq!(session.setup[0].0, "ALP");
    assert_eq!(session.setup[0].1, 18);
}

#[test]
fn removing_one_of_two_pairs_works() {
    let catalog = Catalog { sets: vec![rich_set("ALP"), rich_set("BET")] };
    let mut session = DraftSession::new(catalog, 18, 2, 1);
    session.add_set();
    assert_eq!(session.setup.len(), 2);
    assert_eq!(session.setup[1].0, "BET");
    assert_eq!(session.setup[1].1, 0);
    session.remove_set("ALP");
    assert_eq!(session.setup.len(), 1);
    assert_eq!(session.setup[0].0, "BET");
}

#[test]
fn add_set_with_no_unused_set_is_a_no_op() {
    let mut session = DraftSession::new(rich_catalog(), 18, 2, 1);
    session.add_set();
    assert_eq!(session.setup.len(), 1, "the only set is already configured");
}

#[test]
fn unused_sets_keeps_the_shown_identifier() {
    let catalog = Catalog { sets: vec![rich_set("ALP"), rich_set("BET"), rich_set("GAM")] };
    let session = DraftSession::new(catalog, 18, 2, 1);
    assert_eq!(session.unused_sets(""), vec!["BET", "GAM"]);
    assert_eq!(session.unused_sets("ALP"), vec!["ALP", "BET", "GAM"]);
}

#[test]
fn change_set_swaps_the_identifier_keeping_the_count() {
    let catalog = Catalog { sets: vec![rich_set("ALP"), rich_set("BET")] };
    let mut session = DraftSession::new(catalog, 18, 2, 1);
    session.change_set("ALP", "BET");
    assert_eq!(session.setup.len(), 1);
    assert_eq!(session.setup[0].0, "BET");
    assert_eq!(session.setup[0].1, 18);
    session.change_set("NOPE", "ALP");
    assert_eq!(session.setup[0].0, "BET", "no row matches, so nothing changes");
}

#[test]
fn change_pack_count_respects_the_session_total() {
    let catalog = Catalog { sets: vec![rich_set("ALP"), rich_set("BET")] };
    let mut session = DraftSession::new(catalog, 5, 2, 1);
    assert_eq!(session.setup[0].1, 5);
    session.change_pack_count("ALP", 3);
    assert_eq!(session.setup[0].1, 3);
    assert_eq!(session.unassigned_pack_count(), 2);
    session.add_set();
    session.change_pack_count("BET", 3);
    assert_eq!(session.setup[1].1, 0, "three more packs would exceed the total of five");
    session.change_pack_count("BET", 2);
    assert_eq!(session.setup[1].1, 2);
    assert_eq!(session.unassigned_pack_count(), 0);
}

#[test]
fn start_fails_on_an_unknown_set_and_stays_in_setup() {
    let catalog = Catalog { sets: vec![rich_set("ALP"), rich_set("BET")] };
    let mut session = DraftSession::new(catalog, 4, 2, 1);
    session.change_set("ALP", "NOPE");
    match session.start() {
        Err(DraftError::UnknownSet(id)) => assert_eq!(id, "NOPE"),
        other => panic!("expected an unknown-set failure, got {other:?}"),
    }
    assert_eq!(session.phase, Phase::Setup);
}

#[test]
fn selection_buffer_evicts_the_oldest_and_mirrors_flags() {
    let mut session = DraftSession::new(rich_catalog(), 2, 2, 21);
    session.start().expect("the set can fill every pack");
    let a = session.pack.cards[0].name.clone();
    let b = session.pack.cards[1].name.clone();
    let c = session.pack.cards[2].name.clone();
    session.select(&a);
    session.select(&a);
    assert_eq!(session.selection, vec![a.clone()], "re-selecting is a no-op");
    session.select(&b);
    assert_eq!(session.selection, vec![a.clone(), b.clone()]);
    assert!(session.pack.cards[0].is_selected);
    assert!(session.pack.cards[1].is_selected);
    session.select(&c);
    assert_eq!(session.selection, vec![b.clone(), c.clone()], "the oldest selection is dropped");
    assert!(!session.pack.cards[0].is_selected, "the evicted card is deselected");
    assert!(session.pack.cards[1].is_selected);
    assert!(session.pack.cards[2].is_selected);
}

#[test]
fn confirm_empties_the_buffer_and_caps_picks() {
    let mut session = DraftSession::new(rich_catalog(), 3, 2, 33);
    session.start().unwrap();
    let a = session.pack.cards[0].name.clone();
    session.select(&a);
    session.confirm().unwrap();
    assert!(session.selection.is_empty(), "confirming empties the selection buffer");
    assert!(session.pack.picks_taken <= 2);
    assert_eq!(session.pack.picks_taken, 1);
    let pack_len = session.pack.cards.len();
    assert_eq!(pack_len, 14, "one card left the pack");
    // a selected name no longer present is a benign no-op
    session.select(&a);
    session.confirm().unwrap();
    assert!(session.selection.is_empty());
    assert_eq!(session.pack.picks_taken, 1, "nothing was picked");
    assert_eq!(session.pack.cards.len(), pack_len);
}

#[test]
fn selecting_a_name_absent_from_the_pack_confirms_to_nothing() {
    let mut session = DraftSession::new(rich_catalog(), 2, 2, 13);
    session.start().unwrap();
    session.select("No Such Card");
    assert_eq!(session.selection, vec![String::from("No Such Card")]);
    session.confirm().unwrap();
    assert!(session.selection.is_empty());
    assert_eq!(session.pack.picks_taken, 0);
    assert_eq!(session.pack.cards.len(), 15);
}

#[test]
fn a_pack_count_of_zero_is_accepted() {
    let catalog = Catalog { sets: vec![rich_set("ALP"), rich_set("BET")] };
    let mut session = DraftSession::new(catalog, 4, 2, 1);
    session.change_pack_count("ALP", 0);
    assert_eq!(session.setup[0].1, 0);
    assert_eq!(session.unassigned_pack_count(), 4);
    // the four packs are all drawn at random from the configured sets
    session.start().unwrap();
    assert_eq!(session.generator.plan.len(), 4);
    assert!(session.generator.plan.iter().all(|id| id == "ALP"));
}

#[test]
fn two_packs_of_one_set_run_to_completion() {
    // one set with 2 packs and 0 random packs: after the first confirm that
    // reaches the quota the session stands on pack index 1, after the
    // second it is complete
    let mut session = DraftSession::new(rich_catalog(), 2, 2, 5);
    assert_eq!(session.unassigned_pack_count(), 0);
    session.start().unwrap();
    assert_eq!(session.phase, Phase::Drafting);
    assert_eq!(session.generator.pack_index, 0);

    let a = session.pack.cards[0].name.clone();
    let b = session.pack.cards[1].name.clone();
    session.select(&a);
    session.select(&b);
    session.confirm().unwrap();
    assert_eq!(session.phase, Phase::Drafting);
    assert_eq!(session.generator.pack_index, 1);
    assert_eq!(session.pack.picks_taken, 0, "a fresh pack is open");

    let c = session.pack.cards[0].name.clone();
    let d = session.pack.cards[1].name.clone();
    session.select(&c);
    session.select(&d);
    session.confirm().unwrap();
    assert_eq!(session.phase, Phase::Complete);
    assert!(session.pack.cards.is_empty());

    let export = session.export();
    let mut lines: Vec<&str> = export.lines().collect();
    lines.sort();
    let mut expected: Vec<String> = [a, b, c, d]
        .iter()
        .map(|n| format!("1 {n}"))
        .collect();
    expected.sort();
    assert_eq!(lines, expected);
}

#[test]
fn deck_buckets_stay_sorted_by_name() {
    let mut deck = SortedDeck::new();
    for name in ["Bear", "Ape", "Cat", "Bear", "Aardvark"] {
        deck.insert(card(name, 2));
    }
    deck.insert(card("Zebra", 0));
    let names: Vec<&str> = deck.buckets[2].iter().map(|c| c.name.as_str()).collect();
    assert_eq!(names, vec!["Aardvark", "Ape", "Bear", "Bear", "Cat"]);
    let low: Vec<&str> = deck.buckets[0].iter().map(|c| c.name.as_str()).collect();
    assert_eq!(low, vec!["Zebra"]);
    assert!(deck.buckets[1].is_empty());
}

#[test]
fn export_counts_copies_per_distinct_name() {
    let mut deck = SortedDeck::new();
    deck.insert(card("Forest", 0));
    deck.insert(card("Forest", 0));
    deck.insert(card("Lightning Bolt", 1));
    let session = DraftSession {
        generator: PackGenerator::new(rich_catalog(), 0),
        phase: Phase::Complete,
        setup: vec![(String::from("ALP"), 2)],
        pack: Pack { cards: Vec::new(), picks_taken: 0 },
        selection: Vec::new(),
        deck,
        total_packs: 2,
        picks_per_pack: 2,
    };
    let export = session.export();
    let mut lines: Vec<&str> = export.lines().collect();
    lines.sort();
    assert_eq!(lines, vec!["1 Lightning Bolt", "2 Forest"]);
    assert!(!export.ends_with('\n'), "no trailing delimiter");
}

#[test]
fn export_of_an_empty_deck_is_empty() {
    let session = DraftSession {
        generator: PackGenerator::new(rich_catalog(), 0),
        phase: Phase::Complete,
        setup: vec![(String::from("ALP"), 2)],
        pack: Pack { cards: Vec::new(), picks_taken: 0 },
        selection: Vec::new(),
        deck: SortedDeck::new(),
        total_packs: 2,
        picks_per_pack: 2,
    };
    assert_eq!(session.export(), "");
}

#[test]
fn a_full_default_session_drafts_eighteen_packs() {
    let catalog = Catalog { sets: vec![rich_set("ALP"), rich_set("BET")] };
    let mut session = DraftSession::with_defaults(catalog, 77);
    session.change_pack_count("ALP", 10);
    session.add_set();
    session.change_pack_count("BET", 3);
    assert_eq!(session.unassigned_pack_count(), 5);
    session.start().unwrap();
    let mut confirms = 0;
    while session.phase == Phase::Drafting {
        let a = session.pack.cards[0].name.clone();
        let b = session.pack.cards[1].name.clone();
        session.select(&a);
        session.select(&b);
        session.confirm().unwrap();
        confirms += 1;
        assert!(confirms <= 18, "the session must complete after eighteen packs");
    }
    assert_eq!(confirms, 18);
    assert_eq!(session.phase, Phase::Complete);
    let export = session.export();
    let total: usize = export
        .lines()
        .map(|l| l.split_once(' ').unwrap().0.parse::<usize>().unwrap())
        .sum();
    assert_eq!(total, 36, "two picks of each of eighteen packs");
}
