use supreme_drafter::catalog::{Catalog, RawCard, SetTable};
use supreme_drafter::errors::DraftError;
use supreme_drafter::generator::{shuffle, PackGenerator};
use supreme_drafter::rng::Prng;

fn record(name: &str, mana_value: usize, rarity: char, image: i64) -> RawCard {
    RawCard {
        name: String::from(name),
        mana_value: Some(mana_value),
        rarity_code: Some(rarity),
        image_id: Some(image),
    }
}

/// A set with 2 mythics, 2 rares, 5 uncommons, 12 commons and one basic.
fn rich_set(set_id: &str) -> SetTable {
    let mut cards = vec![
        record("Dragon", 5, 'm', 1),
        record("Phoenix", 4, 'm', 2),
        record("Wurm", 6, 'r', 3),
        record("Angel", 5, 'r', 4),
        record("Forest", 0, 'c', 5),
    ];
    for i in 0..5 {
        cards.push(record(&format!("Uncommon {i}"), i, 'u', 10 + i as i64));
    }
    for i in 0..12 {
        cards.push(record(&format!("Common {i}"), i, 'c', 20 + i as i64));
    }
    SetTable { set_id: String::from(set_id), cards }
}

fn rich_catalog() -> Catalog {
    Catalog { sets: vec![rich_set("ALP")] }
}

fn is_one_of(name: &str, prefix: &str, count: usize) -> bool {
    (0..count).any(|i| name == format!("{prefix} {i}"))
}

#[test]
fn generated_pack_has_the_slot_composition() {
    let mut generator = PackGenerator::new(rich_catalog(), 7);
    generator
        .initialize(&vec![(String::from("ALP"), 3)], 0)
        .expect("catalog is complete");
    for _ in 0..50 {
        let pack = generator.generate_pack().expect("pools are large enough");
        assert_eq!(pack.picks_taken, 0);
        // one basic land slot, since the set has a basic
        assert_eq!(pack.cards.len(), 15);
        let rare_slot = &pack.cards[0].name;
        assert!(["Dragon", "Phoenix", "Wurm", "Angel"].contains(&rare_slot.as_str()));
        for k in 1..4 {
            assert!(is_one_of(&pack.cards[k].name, "Uncommon", 5));
        }
        for k in 4..14 {
            assert!(is_one_of(&pack.cards[k].name, "Common", 12));
        }
        assert_eq!(pack.cards[14].name, "Forest");
        // no two cards of the rarity slots share a name
        for i in 0..14 {
            for j in (i + 1)..14 {
                assert_ne!(pack.cards[i].name, pack.cards[j].name);
            }
        }
    }
}

#[test]
fn pack_without_basics_has_fourteen_cards() {
    let mut table = rich_set("ALP");
    table.cards.retain(|c| c.name != "Forest");
    let mut generator = PackGenerator::new(Catalog { sets: vec![table] }, 3);
    generator
        .initialize(&vec![(String::from("ALP"), 1)], 0)
        .unwrap();
    let pack = generator.generate_pack().unwrap();
    assert_eq!(pack.cards.len(), 14);
}

#[test]
fn mythic_promotion_frequency_converges_to_one_in_eight() {
    let mut generator = PackGenerator::new(rich_catalog(), 99);
    generator
        .initialize(&vec![(String::from("ALP"), 3)], 0)
        .unwrap();
    let trials = 8000;
    let mut mythic_draws = 0;
    for _ in 0..trials {
        let pack = generator.generate_pack().unwrap();
        if pack.cards[0].name == "Dragon" || pack.cards[0].name == "Phoenix" {
            mythic_draws += 1;
        }
    }
    // expectation trials / 8 = 1000; allow five standard deviations (~148)
    assert!(
        (850..=1150).contains(&mythic_draws),
        "mythic frequency off: {mythic_draws} of {trials}"
    );
}

#[test]
fn empty_mythic_pool_always_draws_a_rare() {
    let mut table = rich_set("ALP");
    table.cards.retain(|c| c.rarity_code != Some('m'));
    let mut generator = PackGenerator::new(Catalog { sets: vec![table] }, 5);
    generator
        .initialize(&vec![(String::from("ALP"), 1)], 0)
        .unwrap();
    for _ in 0..200 {
        let pack = generator.generate_pack().unwrap();
        assert!(pack.cards[0].name == "Wurm" || pack.cards[0].name == "Angel");
    }
}

#[test]
fn plan_length_and_membership_match_the_configuration() {
    let catalog = Catalog { sets: vec![rich_set("ALP"), rich_set("BET"), rich_set("GAM")] };
    let mut generator = PackGenerator::new(catalog, 11);
    let pairs = vec![(String::from("ALP"), 3), (String::from("BET"), 2)];
    generator.initialize(&pairs, 5).unwrap();
    assert_eq!(generator.plan.len(), 10);
    for id in &generator.plan {
        assert!(id == "ALP" || id == "BET", "unexpected set {id} in plan");
    }
    // the expanded pairs survive the shuffle: at least their counts appear
    let alps = generator.plan.iter().filter(|id| *id == "ALP").count();
    let bets = generator.plan.iter().filter(|id| *id == "BET").count();
    assert!(alps >= 3);
    assert!(bets >= 2);
    assert_eq!(alps + bets, 10);
    assert_eq!(generator.pack_index, 0);
}

#[test]
fn initialize_rejects_an_unknown_set() {
    let mut generator = PackGenerator::new(rich_catalog(), 1);
    let pairs = vec![(String::from("ALP"), 1), (String::from("NOPE"), 1)];
    match generator.initialize(&pairs, 0) {
        Err(DraftError::UnknownSet(id)) => assert_eq!(id, "NOPE"),
        other => panic!("expected an unknown-set failure, got {other:?}"),
    }
}

#[test]
fn initialize_rejects_a_malformed_set() {
    let mut table = rich_set("ALP");
    table.cards.push(RawCard {
        name: String::from("Broken"),
        mana_value: Some(1),
        rarity_code: None,
        image_id: Some(9),
    });
    let mut generator = PackGenerator::new(Catalog { sets: vec![table] }, 1);
    match generator.initialize(&vec![(String::from("ALP"), 1)], 0) {
        Err(DraftError::Catalog(e)) => assert_eq!(e.card_name, "Broken"),
        other => panic!("expected a catalog failure, got {other:?}"),
    }
}

#[test]
fn too_few_distinct_commons_fail_pack_generation() {
    let mut table = rich_set("ALP");
    table.cards.retain(|c| !is_one_of(&c.name, "Common", 12) || c.name == "Common 0");
    let mut generator = PackGenerator::new(Catalog { sets: vec![table] }, 5);
    generator
        .initialize(&vec![(String::from("ALP"), 1)], 0)
        .unwrap();
    match generator.generate_pack() {
        Err(DraftError::InsufficientPool) => {}
        other => panic!("expected an insufficient-pool failure, got {other:?}"),
    }
}

#[test]
fn advance_moves_the_cursor_and_stops_at_the_end() {
    let mut generator = PackGenerator::new(rich_catalog(), 2);
    generator
        .initialize(&vec![(String::from("ALP"), 2)], 0)
        .unwrap();
    assert_eq!(generator.pack_index, 0);
    generator.advance();
    assert_eq!(generator.pack_index, 1);
    generator.advance();
    assert_eq!(generator.pack_index, 2);
    generator.advance();
    assert_eq!(generator.pack_index, 2, "the cursor stays at the terminal index");
}

#[test]
fn shuffle_keeps_exactly_the_same_items() {
    let mut items: Vec<String> = (0..20).map(|i| format!("set {i}")).collect();
    let original = items.clone();
    let mut rng = Prng::new(4242);
    shuffle(&mut items, &mut rng);
    assert_eq!(items.len(), original.len());
    let mut sorted_shuffled = items.clone();
    sorted_shuffled.sort();
    let mut sorted_original = original.clone();
    sorted_original.sort();
    assert_eq!(sorted_shuffled, sorted_original);
    assert_ne!(items, original, "twenty items almost surely move");
}

#[test]
fn next_below_stays_under_its_bound() {
    let mut rng = Prng::new(7);
    for bound in [1usize, 2, 3, 8, 100] {
        for _ in 0..100 {
            assert!(rng.next_below(bound) < bound);
        }
    }
    let mut hits = [false; 8];
    for _ in 0..400 {
        hits[rng.next_below(8)] = true;
    }
    assert!(hits.iter().all(|h| *h), "every residue below 8 shows up");
}
