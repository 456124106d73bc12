use poketrack::api::{
    card_url, check_status, hp_from_i64, hp_from_str, hp_from_u64, series_list_url, serie_url, set_url,
    ApiError, ApiSet, CardCountResume, CardDetails, CardResume, HpError, Serie, SerieListItem,
    SerieResume, SetListItem, SetResume,
};

fn s(x: &str) -> String {
    x.to_string()
}

#[test]
fn serie_list_item_keeps_raw_id() {
    let item = SerieListItem { id: s("swsh"), name: s("Sword & Shield") };
    let r = item.with_lang("en");
    assert_eq!(r.id, "swsh");
    assert_eq!(r.name, "Sword & Shield");
}

#[test]
fn serie_with_lang_prefixes_id() {
    let serie = Serie {
        id: s("swsh"),
        name: s("Sword & Shield"),
        logo: Some(s("logo.png")),
        sets: vec![SerieListItem { id: s("swsh1"), name: s("Base") }],
    };
    let r = serie.with_lang("ja");
    assert_eq!(r.id, "ja-swsh");
    assert_eq!(r.name, "Sword & Shield");
    assert_eq!(r.logo, Some(s("logo.png")));
    assert_eq!(r.language, "ja");
    assert_eq!(r.sets.len(), 1);
    assert_eq!(r.sets[0].id, "swsh1");
}

#[test]
fn set_list_item_with_lang_prefixes_id() {
    let item = SetListItem { id: s("sv01"), name: s("Scarlet") };
    let r = item.with_lang("en");
    assert_eq!(r.id, "en-sv01");
    assert_eq!(r.name, "Scarlet");
}

#[test]
fn card_resume_with_lang_keeps_raw_id() {
    let card = CardResume { id: s("sv01-001"), name: s("Sprigatito"), local_id: s("001"), image: None };
    let r = card.with_lang("en");
    assert_eq!(r.raw_id, "sv01-001");
    assert_eq!(r.id, "en-sv01-001");
    assert_eq!(r.local_id, "001");
    assert_eq!(r.image, None);
}

#[test]
fn set_with_lang_prefixes_set_serie_and_cards() {
    let set = ApiSet {
        id: s("sv01"),
        name: s("Scarlet & Violet"),
        logo: None,
        symbol: Some(s("sym")),
        card_count: CardCountResume { total: 258, official: 198 },
        serie: SerieResume { id: s("sv"), name: s("Scarlet & Violet"), logo: None },
        tcg_online: Some(s("SVI")),
        release_date: s("2023-03-31"),
        cards: vec![
            CardResume { id: s("sv01-001"), name: s("Pineco"), local_id: s("001"), image: None },
            CardResume { id: s("sv01-002"), name: s("Forretress"), local_id: s("002"), image: Some(s("i")) },
        ],
    };
    let r = set.with_lang("en");
    assert_eq!(r.id, "en-sv01");
    assert_eq!(r.serie_id, "en-sv");
    assert_eq!(r.serie_name, "Scarlet & Violet");
    assert_eq!(r.card_count, CardCountResume { total: 258, official: 198 });
    assert_eq!(r.symbol, Some(s("sym")));
    assert_eq!(r.tcg_online, Some(s("SVI")));
    assert_eq!(r.release_date, "2023-03-31");
    assert_eq!(r.language, "en");
    assert_eq!(r.cards.len(), 2);
    assert_eq!(r.cards[1].id, "en-sv01-002");
    assert_eq!(r.cards[1].raw_id, "sv01-002");
    assert_eq!(r.cards[1].image, Some(s("i")));
}

#[test]
fn card_details_with_lang_moves_fields() {
    let card = CardDetails {
        id: s("swsh3-136"),
        local_id: s("136"),
        name: s("Furret"),
        category: Some(s("Pokemon")),
        dex_ids: Some(vec![162]),
        hp: Some(110),
        types: Some(vec![s("Colorless")]),
        rarity: Some(s("Uncommon")),
        image: None,
        stage: Some(s("Stage1")),
        evolves_from: Some(s("Sentret")),
        illustrator: Some(s("tetsuya koizumi")),
        description: None,
        set: SetResume {
            id: s("swsh3"),
            name: s("Darkness Ablaze"),
            card_count: CardCountResume { total: 201, official: 189 },
            tcg_online: None,
            release_date: None,
        },
    };
    let r = card.with_lang("en");
    assert_eq!(r.id, "en-swsh3-136");
    assert_eq!(r.set_id, "en-swsh3");
    assert_eq!(r.set_name, "Darkness Ablaze");
    assert_eq!(r.dex_ids, Some(vec![162]));
    assert_eq!(r.hp, Some(110));
    assert_eq!(r.evolves_from, Some(s("Sentret")));
    assert_eq!(r.language, "en");
}

#[test]
fn hp_from_integers() {
    assert_eq!(hp_from_i64(70), Ok(Some(70)));
    assert_eq!(hp_from_i64(-5), Ok(Some(-5)));
    assert_eq!(hp_from_i64(i64::from(i32::MIN)), Ok(Some(i32::MIN)));
    assert_eq!(hp_from_i64(1 << 40), Err(HpError::SignedOutOfRange(1 << 40)));
    assert_eq!(hp_from_u64(2147483647), Ok(Some(i32::MAX)));
    assert_eq!(hp_from_u64(2147483648), Err(HpError::UnsignedOutOfRange(2147483648)));
}

#[test]
fn hp_from_text() {
    assert_eq!(hp_from_str("120"), Some(120));
    assert_eq!(hp_from_str("+7"), Some(7));
    assert_eq!(hp_from_str("-2147483648"), Some(i32::MIN));
    assert_eq!(hp_from_str("2147483647"), Some(i32::MAX));
    assert_eq!(hp_from_str("2147483648"), None);
    assert_eq!(hp_from_str("99999999999999999999x"), None);
    assert_eq!(hp_from_str("70+"), None);
    assert_eq!(hp_from_str(""), None);
    assert_eq!(hp_from_str("-"), None);
    assert_eq!(hp_from_str(" 70"), None);
}

#[test]
fn api_addresses() {
    assert_eq!(card_url("en", "swsh3-136"), "https://api.tcgdex.net/v2/en/cards/swsh3-136");
    assert_eq!(serie_url("ja", "sv"), "https://api.tcgdex.net/v2/ja/series/sv");
    assert_eq!(series_list_url("en"), "https://api.tcgdex.net/v2/en/series");
    assert_eq!(set_url("en", "sv01"), "https://api.tcgdex.net/v2/en/sets/sv01");
}

#[test]
fn status_check() {
    assert_eq!(check_status(200, "u"), Ok(()));
    assert_eq!(check_status(299, "u"), Ok(()));
    assert_eq!(check_status(404, "u"), Err(ApiError::Status { status: 404, url: s("u") }));
    assert_eq!(check_status(199, "u"), Err(ApiError::Status { status: 199, url: s("u") }));
}
