use poketrack::cards_database::{CardData, SerieData, SetData};
use poketrack::db::{
    card_row, dex_id_chunks, existing_dex_ids_query, localized_name, missing_stats_query, series_row, set_row,
};
use poketrack::text::{dash_join, parse_i32, str_before, u64_to_text};

fn s(x: &str) -> String {
    x.to_string()
}

#[test]
fn names_by_language() {
    let en = Some(s("Base"));
    let ja = Some(s("拡張"));
    assert_eq!(localized_name(&en, &ja, "en"), "Base");
    assert_eq!(localized_name(&en, &ja, "ja"), "拡張");
    assert_eq!(localized_name(&en, &ja, "fr"), "");
    assert_eq!(localized_name(&None, &ja, "en"), "");
}

#[test]
fn series_and_set_rows() {
    let serie = SerieData { id: s("swsh"), name_en: Some(s("Sword")), name_ja: None, logo: Some(s("l")) };
    let row = series_row(&serie, "en");
    assert_eq!(row.id, "en-swsh");
    assert_eq!(row.name, "Sword");
    assert_eq!(row.logo, Some(s("l")));
    let set = SetData {
        id: s("swsh1"),
        name_en: None,
        name_ja: Some(s("ソード")),
        serie_id: s("swsh"),
        release_date: None,
        tcg_online: Some(s("SSH")),
        total_cards: 202,
    };
    let row = set_row(&set, "ja");
    assert_eq!(row.id, "ja-swsh1");
    assert_eq!(row.serie_id, "ja-swsh");
    assert_eq!(row.name, "ソード");
    assert_eq!(row.release_date, "");
    assert_eq!(row.total_cards, 202);
}

#[test]
fn card_row_ids() {
    let card = CardData {
        local_id: s("136"),
        name: s("Furret"),
        category: s("Pokemon"),
        hp: Some(110),
        types: Some(s(r#"["Colorless"]"#)),
        dex_id: Some(162),
        rarity: None,
        stage: None,
        evolves_from: None,
        illustrator: None,
        description: None,
        image: None,
    };
    let row = card_row(&card, "swsh3", "en");
    assert_eq!(row.id, "en-swsh3-136");
    assert_eq!(row.set_id, "en-swsh3");
    assert_eq!(row.dex_id, Some(162));
    assert_eq!(row.types, Some(s(r#"["Colorless"]"#)));
}

#[test]
fn rows_of_one_language_refer_to_each_other() {
    let serie = SerieData { id: s("sv"), name_en: None, name_ja: None, logo: None };
    let set = SetData {
        id: s("sv1"),
        name_en: None,
        name_ja: None,
        serie_id: s("sv"),
        release_date: None,
        tcg_online: None,
        total_cards: 1,
    };
    let card = CardData {
        local_id: s("001"),
        name: s("Sprigatito"),
        category: s("Pokemon"),
        hp: None,
        types: None,
        dex_id: Some(906),
        rarity: None,
        stage: None,
        evolves_from: None,
        illustrator: None,
        description: None,
        image: None,
    };
    let serie_row = series_row(&serie, "ja");
    let set_row = set_row(&set, "ja");
    let card_row = card_row(&card, &set.id, "ja");
    assert_eq!(set_row.serie_id, serie_row.id);
    assert_eq!(card_row.set_id, set_row.id);
    assert!(card_row.id.starts_with(&format!("{}-", set_row.id)));
}

#[test]
fn missing_stats_queries() {
    let (sql, pattern) = missing_stats_query(Some("en"));
    assert!(sql.ends_with(" AND cards.set_id LIKE ? GROUP BY cards.set_id, sets.name ORDER BY missing ASC"));
    assert!(sql.contains("LEFT JOIN collected_pokemon cp ON cards.dex_id = cp.dex_id"));
    assert_eq!(pattern, Some(s("en-%")));
    let (sql, pattern) = missing_stats_query(None);
    assert!(sql.ends_with("WHERE cp.dex_id IS NULL AND cards.dex_id IS NOT NULL\n         GROUP BY cards.set_id, sets.name ORDER BY missing ASC"));
    assert_eq!(pattern, None);
}

#[test]
fn dex_id_queries() {
    assert_eq!(existing_dex_ids_query(3), "SELECT DISTINCT dex_id FROM cards WHERE dex_id IN (?,?,?)");
    assert_eq!(existing_dex_ids_query(1), "SELECT DISTINCT dex_id FROM cards WHERE dex_id IN (?)");
    assert_eq!(existing_dex_ids_query(0), "SELECT DISTINCT dex_id FROM cards WHERE dex_id IN ()");
}

#[test]
fn dex_ids_in_chunks() {
    let ids: Vec<i32> = (1..=1001).collect();
    let chunks = dex_id_chunks(&ids);
    assert_eq!(chunks.len(), 3);
    assert_eq!(chunks[0].len(), 500);
    assert_eq!(chunks[1].len(), 500);
    assert_eq!(chunks[2], vec![1001]);
    assert_eq!(chunks.concat(), ids);
    assert!(dex_id_chunks(&vec![]).is_empty());
    assert_eq!(dex_id_chunks(&vec![7, 8]), vec![vec![7, 8]]);
}

#[test]
fn text_helpers() {
    assert_eq!(dash_join("en", "base1"), "en-base1");
    assert_eq!(u64_to_text(0), "0");
    assert_eq!(u64_to_text(1234567890), "1234567890");
    assert_eq!(u64_to_text(u64::MAX), u64::MAX.to_string());
    assert_eq!(parse_i32("0042"), Some(42));
    assert_eq!(parse_i32("+"), None);
    assert!(str_before("Abra", "abra"));
    assert!(str_before("Pika", "Pikachu"));
    assert!(!str_before("Pikachu", "Pika"));
    assert!(!str_before("same", "same"));
    assert_eq!(str_before("Évoli", "Zubat"), "Évoli" < "Zubat");
}
