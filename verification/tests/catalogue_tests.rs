use poketrack::cards_database::{
    card_from_json, parse_card_text, parse_serie_text, parse_set_text, serie_from_json, set_from_json, CardFile, CardsDatabase, DatabaseError,
    LanguageFiles, ParseError, SerieFile, SetFile,
};
use poketrack::json::Json;

fn s(x: &str) -> String {
    x.to_string()
}

#[test]
fn serie_file_is_read() {
    let serie = parse_serie_text(r#"{"id":"swsh","name":{"en":"Sword & Shield","ja":"ソード&シールド"}}"#).unwrap();
    assert_eq!(serie.id, "swsh");
    assert_eq!(serie.name_en, Some(s("Sword & Shield")));
    assert_eq!(serie.name_ja, Some(s("ソード&シールド")));
    assert_eq!(serie.logo, None);
}

#[test]
fn serie_file_errors() {
    assert_eq!(parse_serie_text("not json"), Err(ParseError::InvalidJson));
    assert_eq!(parse_serie_text(r#"{"name":{"en":"x"}}"#), Err(ParseError::MissingId));
    assert_eq!(parse_serie_text(r#"{"id":5}"#), Err(ParseError::MissingId));
}

#[test]
fn set_file_is_read() {
    let set = parse_set_text(
        r#"{"id":"swsh1","name":{"en":"Sword & Shield"},"cardCount":{"official":202,"total":216},"releaseDate":"2020-02-07","tcgOnline":"SSH"}"#,
        "swsh",
    )
    .unwrap();
    assert_eq!(set.id, "swsh1");
    assert_eq!(set.name_en, Some(s("Sword & Shield")));
    assert_eq!(set.name_ja, None);
    assert_eq!(set.serie_id, "swsh");
    assert_eq!(set.total_cards, 202);
    assert_eq!(set.release_date, Some(s("2020-02-07")));
    assert_eq!(set.tcg_online, Some(s("SSH")));
}

#[test]
fn set_file_count_defaults_and_truncates() {
    let set = parse_set_text(r#"{"id":"a"}"#, "x").unwrap();
    assert_eq!(set.total_cards, 0);
    let set = parse_set_text(r#"{"id":"a","cardCount":{"official":4294967297}}"#, "x").unwrap();
    assert_eq!(set.total_cards, 1);
    let set = parse_set_text(r#"{"id":"a","cardCount":{"official":2.5}}"#, "x").unwrap();
    assert_eq!(set.total_cards, 0);
}

#[test]
fn card_file_is_read() {
    let text = r#"{"name":{"en":"Furret","ja":"オオタチ"},"category":"Pokemon","hp":110,"types":["Colorless",3,"Fire"],"dexId":[162,163],"rarity":"Uncommon","stage":"Stage1","evolveFrom":{"en":"Sentret"},"illustrator":"tetsuya koizumi","description":{"en":"It makes a nest."}}"#;
    let card = parse_card_text(text, Some("136"), "ja").unwrap();
    assert_eq!(card.local_id, "136");
    assert_eq!(card.name, "オオタチ");
    assert_eq!(card.category, "Pokemon");
    assert_eq!(card.hp, Some(110));
    assert_eq!(card.types, Some(s(r#"["Colorless","Fire"]"#)));
    assert_eq!(card.dex_id, Some(162));
    assert_eq!(card.rarity, Some(s("Uncommon")));
    assert_eq!(card.stage, Some(s("Stage1")));
    assert_eq!(card.evolves_from, Some(s("Sentret")));
    assert_eq!(card.illustrator, Some(s("tetsuya koizumi")));
    assert_eq!(card.description, Some(s("It makes a nest.")));
    assert_eq!(card.image, None);
}

#[test]
fn card_file_defaults() {
    let card = parse_card_text(r#"{"dexId":[],"types":"Fire"}"#, Some("7"), "en").unwrap();
    assert_eq!(card.name, "Unknown");
    assert_eq!(card.category, "Pokemon");
    assert_eq!(card.hp, None);
    assert_eq!(card.types, None);
    assert_eq!(card.dex_id, None);
    assert_eq!(card.evolves_from, None);
    let card = parse_card_text(r#"{"name":{"fr":"Fouinar"},"types":[]}"#, Some("7"), "en").unwrap();
    assert_eq!(card.name, "Unknown");
    assert_eq!(card.types, Some(s("[]")));
}

#[test]
fn card_file_errors() {
    assert_eq!(parse_card_text("{", Some("1"), "en"), Err(ParseError::InvalidJson));
    assert_eq!(parse_card_text("{}", None, "en"), Err(ParseError::InvalidFileName));
    assert_eq!(parse_card_text("{", None, "en"), Err(ParseError::InvalidJson));
}

fn card(stem: &str, name: &str) -> CardFile {
    CardFile { stem: Some(s(stem)), content: format!(r#"{{"name":{{"en":"{}"}},"dexId":[1]}}"#, name) }
}

fn sample_language(lang: &str) -> LanguageFiles {
    LanguageFiles {
        lang: s(lang),
        series: Some(vec![
            SerieFile {
                content: s(r#"{"id":"base","name":{"en":"Base","ja":"拡張"}}"#),
                sets: vec![
                    SetFile {
                        content: s(r#"{"id":"base1","name":{"en":"Base Set"},"cardCount":{"official":2}}"#),
                        cards: vec![card("1", "Alakazam"), CardFile { stem: Some(s("2")), content: s("broken") }, card("3", "Blastoise")],
                    },
                    SetFile { content: s(r#"{"id":"base2","name":{"en":"Jungle"}}"#), cards: vec![] },
                ],
            },
            SerieFile { content: s(r#"{"id":"gym","name":{"en":"Gym"}}"#), sets: vec![] },
        ]),
    }
}

#[test]
fn catalogue_loads_languages() {
    let db = CardsDatabase::new(&vec![sample_language("en"), sample_language("ja")]).unwrap();
    let series = db.load_series("en").unwrap();
    assert_eq!(series.len(), 2);
    assert_eq!(series[0].id, "base");
    assert_eq!(series[1].id, "gym");
    let sets = db.load_sets_for_series("base", "ja").unwrap();
    assert_eq!(sets.len(), 2);
    assert_eq!(sets[0].id, "base1");
    assert_eq!(sets[0].serie_id, "base");
    assert_eq!(sets[0].total_cards, 2);
    assert_eq!(db.load_sets_for_series("gym", "en").unwrap().len(), 0);
    let cards = db.load_cards("base1", "en").unwrap();
    assert_eq!(cards.len(), 2);
    assert_eq!(cards[0].name, "Alakazam");
    assert_eq!(cards[1].local_id, "3");
    assert_eq!(db.load_cards("base2", "en").unwrap().len(), 0);
}

#[test]
fn catalogue_lookup_errors() {
    let db = CardsDatabase::new(&vec![sample_language("en")]).unwrap();
    assert_eq!(db.load_series("ja"), Err(DatabaseError::LanguageNotLoaded { lang: s("ja") }));
    assert_eq!(
        db.load_sets_for_series("nope", "en"),
        Err(DatabaseError::NoSets { serie_id: s("nope"), lang: s("en") })
    );
    assert_eq!(
        db.load_cards("base1", "ja"),
        Err(DatabaseError::NoCards { set_id: s("base1"), lang: s("ja") })
    );
}

#[test]
fn catalogue_load_errors() {
    let missing = LanguageFiles { lang: s("ja"), series: None };
    assert_eq!(
        CardsDatabase::new(&vec![sample_language("en"), missing]).err(),
        Some(DatabaseError::DirectoryNotFound { lang: s("ja") })
    );
    let mut bad_serie = sample_language("en");
    bad_serie.series.as_mut().unwrap()[1].content = s(r#"{"name":"x"}"#);
    assert_eq!(
        CardsDatabase::new(&vec![bad_serie]).err(),
        Some(DatabaseError::InvalidSerieFile { lang: s("en"), serie: 1, reason: ParseError::MissingId })
    );
    let mut bad_set = sample_language("en");
    bad_set.series.as_mut().unwrap()[0].sets[1].content = s("[");
    assert_eq!(
        CardsDatabase::new(&vec![bad_set]).err(),
        Some(DatabaseError::InvalidSetFile { lang: s("en"), serie: 0, set: 1, reason: ParseError::InvalidJson })
    );
}

#[test]
fn catalogue_reload_replaces_language() {
    let mut db = CardsDatabase::empty();
    db.load_language(&sample_language("en")).unwrap();
    let smaller = LanguageFiles {
        lang: s("en"),
        series: Some(vec![SerieFile { content: s(r#"{"id":"gym"}"#), sets: vec![] }]),
    };
    db.load_language(&smaller).unwrap();
    assert_eq!(db.load_series("en").unwrap().len(), 1);
    assert!(db.load_sets_for_series("base", "en").is_err());
    assert!(db.load_cards("base1", "en").is_err());
}

#[test]
fn later_series_with_same_id_wins() {
    let files = LanguageFiles {
        lang: s("en"),
        series: Some(vec![
            SerieFile {
                content: s(r#"{"id":"dup"}"#),
                sets: vec![SetFile { content: s(r#"{"id":"a"}"#), cards: vec![] }],
            },
            SerieFile {
                content: s(r#"{"id":"dup"}"#),
                sets: vec![SetFile { content: s(r#"{"id":"b"}"#), cards: vec![] }],
            },
        ]),
    };
    let db = CardsDatabase::new(&vec![files]).unwrap();
    assert_eq!(db.load_series("en").unwrap().len(), 2);
    let sets = db.load_sets_for_series("dup", "en").unwrap();
    assert_eq!(sets.len(), 1);
    assert_eq!(sets[0].id, "b");
    assert!(db.load_cards("a", "en").is_ok());
}

fn obj(members: Vec<(&str, Json)>) -> Json {
    Json::Object(members.into_iter().map(|(k, v)| (k.to_string(), v)).collect())
}

fn text(x: &str) -> Json {
    Json::Str(x.to_string())
}

#[test]
fn serie_document_is_read() {
    let doc = obj(vec![("id", text("sv")), ("name", obj(vec![("ja", text("スカーレット&バイオレット"))]))]);
    let serie = serie_from_json(&doc).unwrap();
    assert_eq!(serie.id, "sv");
    assert_eq!(serie.name_en, None);
    assert_eq!(serie.name_ja, Some(s("スカーレット&バイオレット")));
    assert_eq!(serie.logo, None);
    assert_eq!(serie_from_json(&Json::Array(vec![text("sv")])), Err(ParseError::MissingId));
    assert_eq!(serie_from_json(&obj(vec![("id", Json::Null)])), Err(ParseError::MissingId));
}

#[test]
fn set_document_is_read() {
    let doc = obj(vec![
        ("id", text("sv1")),
        ("cardCount", obj(vec![("official", Json::Number(Some(-1)))])),
        ("releaseDate", Json::Number(Some(2023))),
    ]);
    let set = set_from_json(&doc, "sv").unwrap();
    assert_eq!(set.id, "sv1");
    assert_eq!(set.serie_id, "sv");
    assert_eq!(set.total_cards, -1);
    assert_eq!(set.release_date, None);
    assert_eq!(set.tcg_online, None);
    assert_eq!(set_from_json(&Json::Bool(true), "sv"), Err(ParseError::MissingId));
}

#[test]
fn card_document_is_read() {
    let doc = obj(vec![
        ("name", obj(vec![("en", text("Pikachu"))])),
        ("hp", Json::Number(Some(60))),
        ("dexId", Json::Array(vec![Json::Number(None), Json::Number(Some(25))])),
        ("description", obj(vec![("fr", text("Souris"))])),
    ]);
    let card = card_from_json(&doc, Some("58"), "ja").unwrap();
    assert_eq!(card.local_id, "58");
    assert_eq!(card.name, "Pikachu");
    assert_eq!(card.category, "Pokemon");
    assert_eq!(card.hp, Some(60));
    assert_eq!(card.types, None);
    assert_eq!(card.dex_id, None);
    assert_eq!(card.description, None);
    assert_eq!(card_from_json(&doc, None, "en"), Err(ParseError::InvalidFileName));
}
