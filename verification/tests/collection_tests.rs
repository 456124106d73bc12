use poketrack::cards_database::{CardFile, CardsDatabase, DatabaseError, LanguageFiles, SerieFile, SetData, SetFile};
use poketrack::db::{Card, CardSetInfo, DbSet, PokedexCompletion, SetMissingStats};
use poketrack::gui::{
    card_model, choose_db_location, plan_update, set_model, sets_to_fetch, should_fetch_set, AppState, CardModel, DbLocation,
    UpdateSummary, UpdateTally,
};

fn s(x: &str) -> String {
    x.to_string()
}

fn model(dex_id: i32, name: &str, is_collected: bool) -> CardModel {
    CardModel { dex_id, name: s(name), is_collected, sets: vec![] }
}

fn state(cards: Vec<CardModel>) -> AppState {
    let mut st = AppState::initial();
    st.cards = cards;
    st
}

fn dexes(st: &AppState) -> Vec<i32> {
    st.cards.iter().map(|c| c.dex_id).collect()
}

fn names(st: &AppState) -> Vec<String> {
    st.cards.iter().map(|c| c.name.clone()).collect()
}

#[test]
fn initial_state() {
    let st = AppState::initial();
    assert_eq!(st.current_view, "cards");
    assert_eq!(st.filter, "all");
    assert_eq!(st.sort_by, "number");
    assert_eq!(st.sort_direction, "asc");
    assert!(st.cards.is_empty());
    assert_eq!(st.completion, PokedexCompletion { collected: 0, total: 0 });
}

#[test]
fn sort_by_number_is_stable() {
    let mut st = state(vec![model(25, "a", false), model(1, "b", false), model(25, "c", true), model(4, "d", false)]);
    st.sort_cards("number", "asc");
    assert_eq!(dexes(&st), vec![1, 4, 25, 25]);
    assert_eq!(names(&st), vec!["b", "d", "a", "c"]);
    st.sort_cards("number", "desc");
    assert_eq!(dexes(&st), vec![25, 25, 4, 1]);
    assert_eq!(names(&st), vec!["a", "c", "d", "b"]);
    assert_eq!(st.sort_by, "number");
    assert_eq!(st.sort_direction, "desc");
}

#[test]
fn sort_by_name() {
    let mut st = state(vec![model(1, "Bulbasaur", false), model(4, "Charmander", false), model(7, "Abra", true)]);
    st.sort_cards("name", "asc");
    assert_eq!(names(&st), vec!["Abra", "Bulbasaur", "Charmander"]);
    st.sort_cards("name", "down");
    assert_eq!(names(&st), vec!["Charmander", "Bulbasaur", "Abra"]);
}

#[test]
fn unknown_sort_key_keeps_order() {
    let mut st = state(vec![model(3, "c", false), model(1, "a", false)]);
    st.sort_cards("rarity", "asc");
    assert_eq!(dexes(&st), vec![3, 1]);
    assert_eq!(st.sort_by, "rarity");
}

#[test]
fn filters_drop_cards() {
    let cards = || vec![model(1, "a", true), model(2, "b", false), model(3, "c", true)];
    let mut st = state(cards());
    st.filter_cards("collected");
    assert_eq!(dexes(&st), vec![1, 3]);
    st.filter_cards("collected");
    assert_eq!(dexes(&st), vec![1, 3]);
    st.filter_cards("missing");
    assert!(st.cards.is_empty());
    let mut st = state(cards());
    st.filter_cards("missing");
    assert_eq!(dexes(&st), vec![2]);
    let mut st = state(cards());
    st.filter_cards("all");
    assert_eq!(dexes(&st), vec![1, 2, 3]);
    assert_eq!(st.filter, "all");
}

#[test]
fn toggle_twice_restores() {
    let mut st = state(vec![model(1, "a", false), model(2, "b", true), model(2, "c", false)]);
    assert_eq!(st.toggle_card(2), Some(false));
    assert!(!st.cards[1].is_collected);
    assert!(!st.cards[2].is_collected);
    assert_eq!(st.toggle_card(2), Some(true));
    assert!(st.cards[1].is_collected);
    assert_eq!(st.toggle_card(99), None);
}

#[test]
fn mark_collected_first_card() {
    let mut st = state(vec![model(5, "a", false), model(5, "b", false)]);
    st.mark_collected(5);
    assert!(st.cards[0].is_collected);
    assert!(!st.cards[1].is_collected);
    st.mark_collected(5);
    assert!(st.cards[0].is_collected);
    assert!(!st.cards[1].is_collected);
    st.mark_collected(6);
    assert_eq!(dexes(&st), vec![5, 5]);
}

fn stored_card(dex_id: Option<i32>) -> Card {
    Card {
        id: s("en-base1-1"),
        set_id: s("en-base1"),
        local_id: s("1"),
        name: s("Alakazam"),
        category: s("Pokemon"),
        hp: None,
        types: None,
        dex_id,
        rarity: s("Rare"),
        image: None,
        stage: None,
        evolves_from: None,
        illustrator: None,
        description: None,
    }
}

#[test]
fn card_models() {
    let sets = vec![CardSetInfo { card_id: s("c"), set_id: s("s"), set_name: s("n"), local_id: s("1"), rarity: s("r") }];
    let m = card_model(&stored_card(Some(65)), &vec![1, 65], sets);
    assert_eq!(m.dex_id, 65);
    assert!(!m.is_collected);
    assert_eq!(m.sets.len(), 1);
    let m = card_model(&stored_card(Some(65)), &vec![1, 2], vec![]);
    assert!(m.is_collected);
    let m = card_model(&stored_card(None), &vec![], vec![]);
    assert_eq!(m.dex_id, 0);
    assert!(m.is_collected);
}

fn stored_set(id: &str) -> DbSet {
    DbSet {
        id: s(id),
        name: s("Base Set"),
        logo: None,
        symbol: None,
        serie_id: s("en-base"),
        release_date: s("1999-01-09"),
        tcg_online: None,
        total_cards: 102,
        finished: true,
    }
}

#[test]
fn set_models() {
    let stats = vec![
        SetMissingStats { set_id: s("ja-base1"), set_name: s("x"), missing: 9 },
        SetMissingStats { set_id: s("en-base1"), set_name: s("Base Set"), missing: 3 },
        SetMissingStats { set_id: s("en-base1"), set_name: s("Base Set"), missing: 7 },
    ];
    let m = set_model(&stored_set("en-base1"), &stats);
    assert_eq!(m.missing_count, 3);
    assert_eq!(m.language, "English");
    assert_eq!(m.release_date, "1999-01-09");
    let m = set_model(&stored_set("ja-base1"), &stats);
    assert_eq!(m.missing_count, 9);
    assert_eq!(m.language, "Japanese");
    let m = set_model(&stored_set("en"), &stats);
    assert_eq!(m.missing_count, 0);
    assert_eq!(m.language, "Japanese");
}

#[test]
fn fetch_decision() {
    let finished = Some(stored_set("en-base1"));
    assert!(!should_fetch_set(false, &finished, Some(102), 102));
    assert!(should_fetch_set(true, &finished, Some(102), 102));
    assert!(should_fetch_set(false, &finished, Some(101), 102));
    assert!(should_fetch_set(false, &finished, None, 102));
    assert!(should_fetch_set(false, &None, Some(102), 102));
    let mut unfinished = stored_set("en-base1");
    unfinished.finished = false;
    assert!(should_fetch_set(false, &Some(unfinished), Some(102), 102));
}

fn catalogue_set(id: &str, total_cards: i32) -> SetData {
    SetData {
        id: s(id),
        name_en: None,
        name_ja: None,
        serie_id: s("base"),
        release_date: None,
        tcg_online: None,
        total_cards,
    }
}

#[test]
fn sets_to_fetch_passes_over_complete_sets() {
    let candidates = || {
        vec![
            (catalogue_set("base1", 102), Some(stored_set("en-base1")), Some(102)),
            (catalogue_set("base2", 64), Some(stored_set("en-base2")), Some(60)),
            (catalogue_set("base3", 62), None, None),
            (catalogue_set("base4", 130), Some(stored_set("en-base4")), Some(130)),
        ]
    };
    let (fetched, skipped) = sets_to_fetch(candidates(), false);
    let ids: Vec<&str> = fetched.iter().map(|st| st.id.as_str()).collect();
    assert_eq!(ids, vec!["base2", "base3"]);
    assert_eq!(skipped, 2);
    let (fetched, skipped) = sets_to_fetch(candidates(), true);
    assert_eq!(fetched.len(), 4);
    assert_eq!(skipped, 0);
    let (fetched, skipped) = sets_to_fetch(vec![], false);
    assert!(fetched.is_empty());
    assert_eq!(skipped, 0);
}

#[test]
fn tally_message() {
    let mut t = UpdateTally::new();
    assert_eq!(t.message(), "Update complete! Sets: 0, Cards: 0");
    t.record_set(102);
    t.record_set(64);
    assert_eq!(t.total_sets, 2);
    assert_eq!(t.total_inserted, 166);
    assert_eq!(t.message(), "Update complete! Sets: 2, Cards: 166");
}

fn lang_files(lang: &str) -> LanguageFiles {
    LanguageFiles {
        lang: s(lang),
        series: Some(vec![SerieFile {
            content: s(r#"{"id":"base"}"#),
            sets: vec![
                SetFile {
                    content: s(r#"{"id":"base1"}"#),
                    cards: vec![
                        CardFile { stem: Some(s("1")), content: s("{}") },
                        CardFile { stem: Some(s("2")), content: s("{}") },
                    ],
                },
                SetFile { content: s(r#"{"id":"base2"}"#), cards: vec![CardFile { stem: Some(s("1")), content: s("{}") }] },
            ],
        }]),
    }
}

#[test]
fn update_plans() {
    let db = CardsDatabase::new(&vec![lang_files("en"), lang_files("ja")]).unwrap();
    assert_eq!(plan_update(&db, true), Ok(UpdateSummary { sets_completed: 4, cards_inserted: 6, cards_skipped: 0 }));
    assert_eq!(plan_update(&db, false), Ok(UpdateSummary { sets_completed: 0, cards_inserted: 0, cards_skipped: 0 }));
    let only_en = CardsDatabase::new(&vec![lang_files("en")]).unwrap();
    assert_eq!(plan_update(&only_en, true), Err(DatabaseError::LanguageNotLoaded { lang: s("ja") }));
    assert_eq!(plan_update(&CardsDatabase::empty(), false), Err(DatabaseError::LanguageNotLoaded { lang: s("en") }));
}

#[test]
fn database_location() {
    assert_eq!(choose_db_location(true, true, false, true), DbLocation::Internal);
    assert_eq!(choose_db_location(true, true, true, true), DbLocation::External);
    assert_eq!(choose_db_location(true, true, false, false), DbLocation::External);
    assert_eq!(choose_db_location(false, true, false, false), DbLocation::Internal);
    assert_eq!(choose_db_location(false, false, false, false), DbLocation::WorkingDirectory);
}
