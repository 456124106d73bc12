//! The card catalogue: series, sets and cards read from the catalogue's
//! JSON files, one tree per language, held in memory and looked up by
//! language and id.

use vstd::prelude::*;

use crate::json::{Json, parse_json, strings_to_json, json_of_text, json_text_of_strings};
use crate::strmap::StrMap;
use crate::text::{copy_opt, text_or, first_text};

verus! {

/// A series as the catalogue describes it.
#[derive(Debug, PartialEq)]
pub struct SerieData {
    pub id: String,
    pub name_en: Option<String>,
    pub name_ja: Option<String>,
    pub logo: Option<String>,
}

/// A set as the catalogue describes it.
#[derive(Debug, PartialEq)]
pub struct SetData {
    pub id: String,
    pub name_en: Option<String>,
    pub name_ja: Option<String>,
    pub serie_id: String,
    pub release_date: Option<String>,
    pub tcg_online: Option<String>,
    pub total_cards: i32,
}

/// A card as the catalogue describes it, in one language.
#[derive(Debug, PartialEq)]
pub struct CardData {
    pub local_id: String,
    pub name: String,
    pub category: String,
    pub hp: Option<i32>,
    pub types: Option<String>,
    pub dex_id: Option<i32>,
    pub rarity: Option<String>,
    pub stage: Option<String>,
    pub evolves_from: Option<String>,
    pub illustrator: Option<String>,
    pub description: Option<String>,
    pub image: Option<String>,
}

pub struct SerieView {
    pub id: Seq<char>,
    pub name_en: Option<Seq<char>>,
    pub name_ja: Option<Seq<char>>,
    pub logo: Option<Seq<char>>,
}

pub struct SetView {
    pub id: Seq<char>,
    pub name_en: Option<Seq<char>>,
    pub name_ja: Option<Seq<char>>,
    pub serie_id: Seq<char>,
    pub release_date: Option<Seq<char>>,
    pub tcg_online: Option<Seq<char>>,
    pub total_cards: i32,
}

pub struct CardView {
    pub local_id: Seq<char>,
    pub name: Seq<char>,
    pub category: Seq<char>,
    pub hp: Option<i32>,
    pub types: Option<Seq<char>>,
    pub dex_id: Option<i32>,
    pub rarity: Option<Seq<char>>,
    pub stage: Option<Seq<char>>,
    pub evolves_from: Option<Seq<char>>,
    pub illustrator: Option<Seq<char>>,
    pub description: Option<Seq<char>>,
    pub image: Option<Seq<char>>,
}

impl DeepView for SerieData {
    type V = SerieView;

    open spec fn deep_view(&self) -> SerieView {
        SerieView {
            id: self.id@,
            name_en: self.name_en.deep_view(),
            name_ja: self.name_ja.deep_view(),
            logo: self.logo.deep_view(),
        }
    }
}

impl View for SerieData {
    type V = SerieView;

    open spec fn view(&self) -> SerieView {
        self.deep_view()
    }
}

impl DeepView for SetData {
    type V = SetView;

    open spec fn deep_view(&self) -> SetView {
        SetView {
            id: self.id@,
            name_en: self.name_en.deep_view(),
            name_ja: self.name_ja.deep_view(),
            serie_id: self.serie_id@,
            release_date: self.release_date.deep_view(),
            tcg_online: self.tcg_online.deep_view(),
            total_cards: self.total_cards,
        }
    }
}

impl View for SetData {
    type V = SetView;

    open spec fn view(&self) -> SetView {
        self.deep_view()
    }
}

impl DeepView for CardData {
    type V = CardView;

    open spec fn deep_view(&self) -> CardView {
        CardView {
            local_id: self.local_id@,
            name: self.name@,
            category: self.category@,
            hp: self.hp,
            types: self.types.deep_view(),
            dex_id: self.dex_id,
            rarity: self.rarity.deep_view(),
            stage: self.stage.deep_view(),
            evolves_from: self.evolves_from.deep_view(),
            illustrator: self.illustrator.deep_view(),
            description: self.description.deep_view(),
            image: self.image.deep_view(),
        }
    }
}

impl View for CardData {
    type V = CardView;

    open spec fn view(&self) -> CardView {
        self.deep_view()
    }
}

impl Clone for SerieData {
    fn clone(&self) -> (r: Self)
        ensures
            r == *self,
    {
        SerieData {
            id: self.id.clone(),
            name_en: copy_opt(&self.name_en),
            name_ja: copy_opt(&self.name_ja),
            logo: copy_opt(&self.logo),
        }
    }
}

impl Clone for SetData {
    fn clone(&self) -> (r: Self)
        ensures
            r == *self,
    {
        SetData {
            id: self.id.clone(),
            name_en: copy_opt(&self.name_en),
            name_ja: copy_opt(&self.name_ja),
            serie_id: self.serie_id.clone(),
            release_date: copy_opt(&self.release_date),
            tcg_online: copy_opt(&self.tcg_online),
            total_cards: self.total_cards,
        }
    }
}

impl Clone for CardData {
    fn clone(&self) -> (r: Self)
        ensures
            r == *self,
    {
        CardData {
            local_id: self.local_id.clone(),
            name: self.name.clone(),
            category: self.category.clone(),
            hp: self.hp,
            types: copy_opt(&self.types),
            dex_id: self.dex_id,
            rarity: copy_opt(&self.rarity),
            stage: copy_opt(&self.stage),
            evolves_from: copy_opt(&self.evolves_from),
            illustrator: copy_opt(&self.illustrator),
            description: copy_opt(&self.description),
            image: copy_opt(&self.image),
        }
    }
}

/// Why a catalogue file could not be read as a series, a set or a card.
#[derive(Debug, PartialEq, Eq, Structural, Clone, Copy)]
pub enum ParseError {
    /// The text is not a JSON document.
    InvalidJson,
    /// The document has no string `id`.
    MissingId,
    /// The card file's name is not valid text.
    InvalidFileName,
}

/// What a series document holds.
pub open spec fn serie_of_json(j: Json) -> Result<SerieView, ParseError> {
    match j.at("id"@).text() {
        None => Err(ParseError::MissingId),
        Some(id) => Ok(
            SerieView {
                id,
                name_en: j.at("name"@).at("en"@).text(),
                name_ja: j.at("name"@).at("ja"@).text(),
                logo: None,
            },
        ),
    }
}

/// What a series file holds.
pub open spec fn serie_of_text(text: Seq<char>) -> Result<SerieView, ParseError> {
    match json_of_text(text) {
        None => Err(ParseError::InvalidJson),
        Some(j) => serie_of_json(j),
    }
}

/// The number of cards a set file gives: `cardCount.official`, 0 where it
/// is missing, cut to 32 bits.
pub open spec fn official_count(j: Json) -> i32 {
    match j.at("cardCount"@).at("official"@).integer() {
        Some(n) => n as i32,
        None => 0,
    }
}

/// What a set document of the series `serie_id` holds.
pub open spec fn set_of_json(j: Json, serie_id: Seq<char>) -> Result<SetView, ParseError> {
    match j.at("id"@).text() {
        None => Err(ParseError::MissingId),
        Some(id) => Ok(
            SetView {
                id,
                name_en: j.at("name"@).at("en"@).text(),
                name_ja: j.at("name"@).at("ja"@).text(),
                serie_id,
                release_date: j.at("releaseDate"@).text(),
                tcg_online: j.at("tcgOnline"@).text(),
                total_cards: official_count(j),
            },
        ),
    }
}

/// What a set file of the series `serie_id` holds.
pub open spec fn set_of_text(text: Seq<char>, serie_id: Seq<char>) -> Result<SetView, ParseError> {
    match json_of_text(text) {
        None => Err(ParseError::InvalidJson),
        Some(j) => set_of_json(j, serie_id),
    }
}

/// The strings among JSON values, in order.
pub open spec fn texts_among(items: Seq<Json>) -> Seq<Seq<char>>
    decreases items.len(),
{
    if items.len() == 0 {
        Seq::empty()
    } else {
        let rest = texts_among(items.drop_last());
        match items.last().text() {
            Some(s) => rest.push(s),
            None => rest,
        }
    }
}

/// `value.as_i64().map(|v| v as i32)`.
pub open spec fn small_int(v: Json) -> Option<i32> {
    match v.integer() {
        Some(n) => Some(n as i32),
        None => None,
    }
}

/// A text given per language: the one in `lang`, else the English one.
pub open spec fn localized(v: Json, lang: Seq<char>) -> Option<Seq<char>> {
    first_text(v.at(lang).text(), v.at("en"@).text())
}

/// The card a card document holds in language `lang`; `stem` is the
/// file's name without its extension, `None` where that name is not valid
/// text.
pub open spec fn card_of_json(j: Json, stem: Option<Seq<char>>, lang: Seq<char>) -> Result<CardView, ParseError> {
    match stem {
        None => Err(ParseError::InvalidFileName),
        Some(local_id) => Ok(
            CardView {
                local_id,
                name: text_or(localized(j.at("name"@), lang), "Unknown"@),
                category: text_or(j.at("category"@).text(), "Pokemon"@),
                hp: small_int(j.at("hp"@)),
                types: match j.at("types"@).items() {
                    Some(items) => Some(json_text_of_strings(texts_among(items))),
                    None => None,
                },
                dex_id: match j.at("dexId"@).items() {
                    Some(items) => if items.len() > 0 {
                        small_int(items[0])
                    } else {
                        None
                    },
                    None => None,
                },
                rarity: j.at("rarity"@).text(),
                stage: j.at("stage"@).text(),
                evolves_from: localized(j.at("evolveFrom"@), lang),
                illustrator: j.at("illustrator"@).text(),
                description: localized(j.at("description"@), lang),
                image: None,
            },
        ),
    }
}

/// The card a card file holds; `stem` is the file's name without its
/// extension, `None` where that name is not valid text.
pub open spec fn card_of_text(
    text: Seq<char>,
    stem: Option<Seq<char>>,
    lang: Seq<char>,
) -> Result<CardView, ParseError> {
    match json_of_text(text) {
        None => Err(ParseError::InvalidJson),
        Some(j) => card_of_json(j, stem, lang),
    }
}

/// Reads a series document.
pub fn serie_from_json(json: &Json) -> (r: Result<SerieData, ParseError>)
    ensures
        match r {
            Ok(s) => serie_of_json(*json) == Ok::<SerieView, ParseError>(s@),
            Err(e) => serie_of_json(*json) == Err::<SerieView, ParseError>(e),
        },
{
    let id = match json.text_at("id") {
        Some(id) => id,
        None => return Err(ParseError::MissingId),
    };
    let name_en = json.text_at2("name", "en");
    let name_ja = json.text_at2("name", "ja");
    Ok(SerieData { id, name_en, name_ja, logo: None })
}

/// Reads a series file.
pub fn parse_serie_text(text: &str) -> (r: Result<SerieData, ParseError>)
    ensures
        match r {
            Ok(s) => serie_of_text(text@) == Ok::<SerieView, ParseError>(s@),
            Err(e) => serie_of_text(text@) == Err::<SerieView, ParseError>(e),
        },
{
    match parse_json(text) {
        Some(json) => serie_from_json(&json),
        None => Err(ParseError::InvalidJson),
    }
}

/// Reads a set document of the series `serie_id`.
pub fn set_from_json(json: &Json, serie_id: &str) -> (r: Result<SetData, ParseError>)
    ensures
        match r {
            Ok(s) => set_of_json(*json, serie_id@) == Ok::<SetView, ParseError>(s@),
            Err(e) => set_of_json(*json, serie_id@) == Err::<SetView, ParseError>(e),
        },
{
    let id = match json.text_at("id") {
        Some(id) => id,
        None => return Err(ParseError::MissingId),
    };
    let name_en = json.text_at2("name", "en");
    let name_ja = json.text_at2("name", "ja");
    let total_cards: i32 = match json.integer_at2("cardCount", "official") {
        Some(n) => n as i32,
        None => 0,
    };
    let release_date = json.text_at("releaseDate");
    let tcg_online = json.text_at("tcgOnline");
    Ok(SetData {
        id,
        name_en,
        name_ja,
        serie_id: String::from_str(serie_id),
        release_date,
        tcg_online,
        total_cards,
    })
}

/// Reads a set file of the series `serie_id`.
pub fn parse_set_text(text: &str, serie_id: &str) -> (r: Result<SetData, ParseError>)
    ensures
        match r {
            Ok(s) => set_of_text(text@, serie_id@) == Ok::<SetView, ParseError>(s@),
            Err(e) => set_of_text(text@, serie_id@) == Err::<SetView, ParseError>(e),
        },
{
    match parse_json(text) {
        Some(json) => set_from_json(&json, serie_id),
        None => Err(ParseError::InvalidJson),
    }
}

/// The strings among `items`, in order.
fn collect_texts(items: &Vec<Json>) -> (r: Vec<String>)
    ensures
        r@.map_values(|s: String| s@) == texts_among(items@),
{
    let mut r: Vec<String> = Vec::new();
    let mut i: usize = 0;
    while i < items.len()
        invariant
            i <= items@.len(),
            r@.map_values(|s: String| s@) == texts_among(items@.take(i as int)),
        decreases items@.len() - i,
    {
        assert(items@.take(i + 1).drop_last() =~= items@.take(i as int));
        let ghost before = r@;
        match &items[i] {
            Json::Str(s) => {
                r.push(s.clone());
                assert(r@.map_values(|s: String| s@) =~= before.map_values(|s: String| s@).push(
                    items@[i as int].text().unwrap(),
                ));
            },
            _ => {},
        }
        i = i + 1;
    }
    assert(items@.take(items@.len() as int) =~= items@);
    r
}

/// `value.as_i64().map(|v| v as i32)`.
fn small_int_of(v: &Json) -> (r: Option<i32>)
    ensures
        r == small_int(*v),
{
    match v {
        Json::Number(Some(n)) => Some(*n as i32),
        _ => None,
    }
}

/// The text of `value[lang]`, else of `value["en"]`.
fn localized_at(v: &Json, lang: &str) -> (r: Option<String>)
    ensures
        r.deep_view() == localized(*v, lang@),
{
    match v.text_at(lang) {
        Some(s) => Some(s),
        None => v.text_at("en"),
    }
}

/// Reads a card document in language `lang`; `stem` is the file's name
/// without its extension, `None` where that name is not valid text.
pub fn card_from_json(json: &Json, stem: Option<&str>, lang: &str) -> (r: Result<CardData, ParseError>)
    ensures
        match r {
            Ok(c) => card_of_json(*json, stem.deep_view(), lang@) == Ok::<CardView, ParseError>(c@),
            Err(e) => card_of_json(*json, stem.deep_view(), lang@) == Err::<CardView, ParseError>(e),
        },
{
    let local_id = match stem {
        Some(s) => String::from_str(s),
        None => return Err(ParseError::InvalidFileName),
    };
    let name = match json.get("name") {
        Some(v) => match localized_at(v, lang) {
            Some(n) => n,
            None => String::from_str("Unknown"),
        },
        None => String::from_str("Unknown"),
    };
    let category = match json.text_at("category") {
        Some(c) => c,
        None => String::from_str("Pokemon"),
    };
    let hp = match json.get("hp") {
        Some(v) => small_int_of(v),
        None => None,
    };
    let types = match json.items_at("types") {
        Some(items) => {
            let texts = collect_texts(items);
            Some(strings_to_json(&texts))
        },
        None => None,
    };
    let dex_id = match json.items_at("dexId") {
        Some(items) => if items.len() > 0 {
            small_int_of(&items[0])
        } else {
            None
        },
        None => None,
    };
    let rarity = json.text_at("rarity");
    let stage = json.text_at("stage");
    let evolves_from = match json.get("evolveFrom") {
        Some(v) => localized_at(v, lang),
        None => None,
    };
    let illustrator = json.text_at("illustrator");
    let description = match json.get("description") {
        Some(v) => localized_at(v, lang),
        None => None,
    };
    Ok(CardData {
        local_id,
        name,
        category,
        hp,
        types,
        dex_id,
        rarity,
        stage,
        evolves_from,
        illustrator,
        description,
        image: None,
    })
}

/// Reads a card file in language `lang`; `stem` is the file's name without
/// its extension, `None` where that name is not valid text.
pub fn parse_card_text(text: &str, stem: Option<&str>, lang: &str) -> (r: Result<CardData, ParseError>)
    ensures
        match r {
            Ok(c) => card_of_text(text@, stem.deep_view(), lang@) == Ok::<CardView, ParseError>(c@),
            Err(e) => card_of_text(text@, stem.deep_view(), lang@) == Err::<CardView, ParseError>(e),
        },
{
    match parse_json(text) {
        Some(json) => card_from_json(&json, stem, lang),
        None => Err(ParseError::InvalidJson),
    }
}

/// A card file: its name without the extension (`None` where the name is
/// not valid text) and its text.
pub struct CardFile {
    pub stem: Option<String>,
    pub content: String,
}

/// A set file and the card files of the directory named after it (none
/// where there is no such directory).
pub struct SetFile {
    pub content: String,
    pub cards: Vec<CardFile>,
}

/// A series file and the set files of the directory named after it.
pub struct SerieFile {
    pub content: String,
    pub sets: Vec<SetFile>,
}

/// The catalogue files of one language, in directory order; `series` is
/// `None` where the language has no directory.
pub struct LanguageFiles {
    pub lang: String,
    pub series: Option<Vec<SerieFile>>,
}

/// Why the catalogue could not be loaded, or a lookup found nothing.
#[derive(Debug, PartialEq)]
pub enum DatabaseError {
    /// The language has no directory.
    DirectoryNotFound { lang: String },
    /// The series file at position `serie` could not be read.
    InvalidSerieFile { lang: String, serie: usize, reason: ParseError },
    /// The set file at position `set` of the series at position `serie`
    /// could not be read.
    InvalidSetFile { lang: String, serie: usize, set: usize, reason: ParseError },
    /// No series were loaded for the language.
    LanguageNotLoaded { lang: String },
    /// No sets are known for the series in the language.
    NoSets { serie_id: String, lang: String },
    /// No cards are known for the set in the language.
    NoCards { set_id: String, lang: String },
}

impl DatabaseError {
    /// `LanguageNotLoaded` for `lang`.
    pub open spec fn is_language_not_loaded(&self, lang: Seq<char>) -> bool {
        match self {
            DatabaseError::LanguageNotLoaded { lang: l } => l@ == lang,
            _ => false,
        }
    }

    /// `NoSets` for the series `serie_id` in `lang`.
    pub open spec fn is_no_sets(&self, serie_id: Seq<char>, lang: Seq<char>) -> bool {
        match self {
            DatabaseError::NoSets { serie_id: s, lang: l } => s@ == serie_id && l@ == lang,
            _ => false,
        }
    }

    /// `NoCards` for the set `set_id` in `lang`.
    pub open spec fn is_no_cards(&self, set_id: Seq<char>, lang: Seq<char>) -> bool {
        match self {
            DatabaseError::NoCards { set_id: s, lang: l } => s@ == set_id && l@ == lang,
            _ => false,
        }
    }
}

/// The cards that the card files of a set yield: those that can be read,
/// in order; the others are passed over.
pub open spec fn cards_of_files(cards: Seq<CardFile>, lang: Seq<char>) -> Seq<CardView>
    decreases cards.len(),
{
    if cards.len() == 0 {
        Seq::empty()
    } else {
        let rest = cards_of_files(cards.drop_last(), lang);
        match card_of_text(cards.last().content@, cards.last().stem.deep_view(), lang) {
            Ok(c) => rest.push(c),
            Err(_) => rest,
        }
    }
}

/// The id of the series that a (readable) series file describes.
pub open spec fn serie_id_of(f: SerieFile) -> Seq<char> {
    serie_of_text(f.content@)->Ok_0.id
}

/// The set that a (readable) set file of the series `serie_id` describes.
pub open spec fn set_view_of(f: SetFile, serie_id: Seq<char>) -> SetView {
    set_of_text(f.content@, serie_id)->Ok_0
}

/// The sets that the set files of a series describe, in order.
pub open spec fn set_views_of(sets: Seq<SetFile>, serie_id: Seq<char>) -> Seq<SetView> {
    sets.map_values(|f: SetFile| set_view_of(f, serie_id))
}

/// The series that the series files describe, in order.
pub open spec fn series_views_of(files: Seq<SerieFile>) -> Seq<SerieView> {
    files.map_values(|f: SerieFile| serie_of_text(f.content@)->Ok_0)
}

/// A series file can be read, and so can each of its set files.
pub open spec fn serie_file_ok(f: SerieFile) -> bool {
    serie_of_text(f.content@) is Ok && forall|j: int|
        0 <= j < f.sets@.len() ==> (#[trigger] set_of_text(
            f.sets@[j].content@,
            serie_id_of(f),
        )) is Ok
}

/// The sets of each series, by series id; a later series file with the
/// same id replaces an earlier one.
pub open spec fn sets_map_of(files: Seq<SerieFile>) -> Map<Seq<char>, Seq<SetView>>
    decreases files.len(),
{
    if files.len() == 0 {
        Map::empty()
    } else {
        let f = files.last();
        sets_map_of(files.drop_last()).insert(serie_id_of(f), set_views_of(f.sets@, serie_id_of(f)))
    }
}

/// `m` with the cards of each of `sets` stored under the set's id.
pub open spec fn cards_into(
    m: Map<Seq<char>, Seq<CardView>>,
    sets: Seq<SetFile>,
    serie_id: Seq<char>,
    lang: Seq<char>,
) -> Map<Seq<char>, Seq<CardView>>
    decreases sets.len(),
{
    if sets.len() == 0 {
        m
    } else {
        cards_into(m, sets.drop_last(), serie_id, lang).insert(
            set_view_of(sets.last(), serie_id).id,
            cards_of_files(sets.last().cards@, lang),
        )
    }
}

/// The cards of each set of each series, by set id; a later set with the
/// same id replaces an earlier one.
pub open spec fn cards_map_of(files: Seq<SerieFile>, lang: Seq<char>) -> Map<Seq<char>, Seq<CardView>>
    decreases files.len(),
{
    if files.len() == 0 {
        Map::empty()
    } else {
        let f = files.last();
        cards_into(cards_map_of(files.drop_last(), lang), f.sets@, serie_id_of(f), lang)
    }
}

/// The catalogue as maps from language to its series, to its sets by
/// series id, and to its cards by set id.
pub struct CatalogView {
    pub series: Map<Seq<char>, Seq<SerieView>>,
    pub sets: Map<Seq<char>, Map<Seq<char>, Seq<SetView>>>,
    pub cards: Map<Seq<char>, Map<Seq<char>, Seq<CardView>>>,
}

/// Within one language: each series listed has its sets, and each set
/// listed under any series has its cards.
pub open spec fn language_consistent(
    series: Seq<SerieView>,
    sets: Map<Seq<char>, Seq<SetView>>,
    cards: Map<Seq<char>, Seq<CardView>>,
) -> bool {
    &&& forall|i: int| 0 <= i < series.len() ==> sets.contains_key(#[trigger] series[i].id)
    &&& forall|k: Seq<char>, j: int|
        #![trigger sets[k][j]]
        sets.contains_key(k) && 0 <= j < sets[k].len() ==> cards.contains_key(sets[k][j].id)
}

/// Every loaded language has its series, sets and cards, consistent with
/// one another.
pub open spec fn catalog_consistent(v: CatalogView) -> bool {
    forall|lang: Seq<char>|
        #[trigger] v.series.contains_key(lang) ==> {
            &&& v.sets.contains_key(lang)
            &&& v.cards.contains_key(lang)
            &&& language_consistent(v.series[lang], v.sets[lang], v.cards[lang])
        }
}

/// The card catalogue, by language.
pub struct CardsDatabase {
    series: StrMap<Vec<SerieData>>,
    sets_by_serie: StrMap<StrMap<Vec<SetData>>>,
    cards_by_set: StrMap<StrMap<Vec<CardData>>>,
}

impl View for CardsDatabase {
    type V = CatalogView;

    closed spec fn view(&self) -> CatalogView {
        CatalogView {
            series: self.series@,
            sets: self.sets_by_serie@,
            cards: self.cards_by_set@,
        }
    }
}

/// `cards_into` keeps what was there and adds every set of `sets`.
proof fn lemma_cards_into(
    m: Map<Seq<char>, Seq<CardView>>,
    sets: Seq<SetFile>,
    serie_id: Seq<char>,
    lang: Seq<char>,
)
    ensures
        forall|k: Seq<char>| m.contains_key(k) ==> #[trigger] cards_into(m, sets, serie_id, lang).contains_key(k),
        forall|j: int|
            0 <= j < sets.len() ==> cards_into(m, sets, serie_id, lang).contains_key(
                #[trigger] set_view_of(sets[j], serie_id).id,
            ),
    decreases sets.len(),
{
    if sets.len() > 0 {
        let init = sets.drop_last();
        lemma_cards_into(m, init, serie_id, lang);
        assert forall|k: Seq<char>| m.contains_key(k) implies #[trigger] cards_into(m, sets, serie_id, lang).contains_key(k) by {
            assert(cards_into(m, init, serie_id, lang).contains_key(k));
        }
        assert forall|j: int| 0 <= j < sets.len() implies cards_into(m, sets, serie_id, lang).contains_key(
            #[trigger] set_view_of(sets[j], serie_id).id,
        ) by {
            if j < sets.len() - 1 {
                assert(init[j] == sets[j]);
            }
        }
    }
}

/// Every set of every series file has its cards in `cards_map_of`.
proof fn lemma_cards_map_has_sets(files: Seq<SerieFile>, lang: Seq<char>)
    ensures
        forall|i: int, j: int|
            0 <= i < files.len() && 0 <= j < files[i].sets@.len() ==> cards_map_of(files, lang).contains_key(
                #[trigger] set_view_of(files[i].sets@[j], serie_id_of(files[i])).id,
            ),
    decreases files.len(),
{
    if files.len() > 0 {
        let init = files.drop_last();
        let f = files.last();
        lemma_cards_map_has_sets(init, lang);
        lemma_cards_into(cards_map_of(init, lang), f.sets@, serie_id_of(f), lang);
        assert forall|i: int, j: int|
            0 <= i < files.len() && 0 <= j < files[i].sets@.len() implies cards_map_of(files, lang).contains_key(
                #[trigger] set_view_of(files[i].sets@[j], serie_id_of(files[i])).id,
            ) by {
            if i < files.len() - 1 {
                assert(init[i] == files[i]);
            }
        }
    }
}

/// Each series file's id is a key of `sets_map_of`, and each entry of it
/// holds the sets of some series file with that id.
proof fn lemma_sets_map_of(files: Seq<SerieFile>)
    ensures
        forall|i: int| 0 <= i < files.len() ==> sets_map_of(files).contains_key(#[trigger] serie_id_of(files[i])),
        forall|k: Seq<char>|
            #[trigger] sets_map_of(files).contains_key(k) ==> exists|i: int|
                0 <= i < files.len() && serie_id_of(files[i]) == k && sets_map_of(files)[k]
                    == set_views_of(files[i].sets@, k),
    decreases files.len(),
{
    if files.len() > 0 {
        let init = files.drop_last();
        lemma_sets_map_of(init);
        assert forall|i: int| 0 <= i < files.len() implies sets_map_of(files).contains_key(
            #[trigger] serie_id_of(files[i]),
        ) by {
            if i < files.len() - 1 {
                assert(init[i] == files[i]);
            }
        }
        assert forall|k: Seq<char>| #[trigger] sets_map_of(files).contains_key(k) implies exists|i: int|
            0 <= i < files.len() && serie_id_of(files[i]) == k && sets_map_of(files)[k] == set_views_of(
                files[i].sets@,
                k,
            ) by {
            if k == serie_id_of(files.last()) {
                assert(files[files.len() - 1] == files.last());
            } else {
                let i = choose|i: int|
                    0 <= i < init.len() && serie_id_of(init[i]) == k && sets_map_of(init)[k]
                        == set_views_of(init[i].sets@, k);
                assert(init[i] == files[i]);
            }
        }
    }
}

/// A language read from its files is consistent.
proof fn lemma_loaded_language_consistent(files: Seq<SerieFile>, lang: Seq<char>)
    ensures
        language_consistent(series_views_of(files), sets_map_of(files), cards_map_of(files, lang)),
{
    lemma_sets_map_of(files);
    lemma_cards_map_has_sets(files, lang);
    let series = series_views_of(files);
    let sets = sets_map_of(files);
    let cards = cards_map_of(files, lang);
    assert forall|i: int| 0 <= i < series.len() implies sets.contains_key(#[trigger] series[i].id) by {
        assert(series[i].id == serie_id_of(files[i]));
    }
    assert forall|k: Seq<char>, j: int|
        #![trigger sets[k][j]]
        sets.contains_key(k) && 0 <= j < sets[k].len() implies cards.contains_key(sets[k][j].id) by {
        let i = choose|i: int|
            0 <= i < files.len() && serie_id_of(files[i]) == k && sets[k] == set_views_of(files[i].sets@, k);
        assert(sets[k][j] == set_view_of(files[i].sets@[j], serie_id_of(files[i])));
    }
}

/// All files of a language can be read: its directory exists, and each
/// series file and each of their set files can be read.
pub open spec fn language_files_ok(f: LanguageFiles) -> bool {
    match f.series {
        None => false,
        Some(files) => forall|i: int| 0 <= i < files@.len() ==> #[trigger] serie_file_ok(files@[i]),
    }
}

/// `e` is the error met first in reading `f`: the missing directory, or the
/// first series file that cannot be read, or the first set file that cannot
/// be read in the first series whose files are not all readable.
pub open spec fn is_load_failure(f: LanguageFiles, e: DatabaseError) -> bool {
    match e {
        DatabaseError::DirectoryNotFound { lang } => lang@ == f.lang@ && f.series is None,
        DatabaseError::InvalidSerieFile { lang, serie, reason } => {
            &&& lang@ == f.lang@
            &&& f.series matches Some(files) && {
                &&& serie < files@.len()
                &&& forall|k: int| 0 <= k < serie ==> #[trigger] serie_file_ok(files@[k])
                &&& serie_of_text(files@[serie as int].content@) == Err::<SerieView, ParseError>(reason)
            }
        },
        DatabaseError::InvalidSetFile { lang, serie, set, reason } => {
            &&& lang@ == f.lang@
            &&& f.series matches Some(files) && {
                &&& serie < files@.len()
                &&& forall|k: int| 0 <= k < serie ==> #[trigger] serie_file_ok(files@[k])
                &&& serie_of_text(files@[serie as int].content@) is Ok
                &&& set < files@[serie as int].sets@.len()
                &&& forall|m: int|
                    0 <= m < set ==> (#[trigger] set_of_text(
                        files@[serie as int].sets@[m].content@,
                        serie_id_of(files@[serie as int]),
                    )) is Ok
                &&& set_of_text(
                    files@[serie as int].sets@[set as int].content@,
                    serie_id_of(files@[serie as int]),
                ) == Err::<SetView, ParseError>(reason)
            }
        },
        _ => false,
    }
}

/// The catalogue `old` with the language `lang` read from `files` in place
/// of what it held for that language.
pub open spec fn with_language(old: CatalogView, lang: Seq<char>, files: Seq<SerieFile>) -> CatalogView {
    CatalogView {
        series: old.series.insert(lang, series_views_of(files)),
        sets: old.sets.insert(lang, sets_map_of(files)),
        cards: old.cards.insert(lang, cards_map_of(files, lang)),
    }
}

/// The catalogue with no language loaded.
pub open spec fn empty_catalog() -> CatalogView {
    CatalogView { series: Map::empty(), sets: Map::empty(), cards: Map::empty() }
}

/// The catalogue read from the files of each language in turn.
pub open spec fn catalog_of(languages: Seq<LanguageFiles>) -> CatalogView
    decreases languages.len(),
{
    if languages.len() == 0 {
        empty_catalog()
    } else {
        let l = languages.last();
        with_language(catalog_of(languages.drop_last()), l.lang@, l.series->0@)
    }
}

/// Loading a language gives back, for that language, what its files hold,
/// and leaves every other language as it was.
pub proof fn lemma_load_language_reads_back(old: CatalogView, lang: Seq<char>, files: Seq<SerieFile>, other: Seq<char>)
    ensures
        with_language(old, lang, files).series[lang] == series_views_of(files),
        with_language(old, lang, files).sets[lang] == sets_map_of(files),
        with_language(old, lang, files).cards[lang] == cards_map_of(files, lang),
        other != lang ==> {
            &&& with_language(old, lang, files).series.contains_key(other) == old.series.contains_key(other)
            &&& with_language(old, lang, files).series[other] == old.series[other]
            &&& with_language(old, lang, files).sets[other] == old.sets[other]
            &&& with_language(old, lang, files).cards[other] == old.cards[other]
        },
{
}

/// Every language of the files a catalogue was read from is loaded in it.
pub proof fn lemma_catalog_has_languages(languages: Seq<LanguageFiles>)
    ensures
        forall|i: int|
            0 <= i < languages.len() ==> catalog_of(languages).series.contains_key(#[trigger] languages[i].lang@),
    decreases languages.len(),
{
    if languages.len() > 0 {
        let init = languages.drop_last();
        lemma_catalog_has_languages(init);
        assert forall|i: int| 0 <= i < languages.len() implies catalog_of(languages).series.contains_key(
            #[trigger] languages[i].lang@,
        ) by {
            if i < languages.len() - 1 {
                assert(init[i] == languages[i]);
            }
        }
    }
}

/// A series file is read as the JSON document it holds: not a document
/// gives `InvalidJson`, a document gives what `serie_from_json` reads.
pub proof fn lemma_serie_text_is_its_document(text: Seq<char>)
    ensures
        json_of_text(text) is None ==> serie_of_text(text) == Err::<SerieView, ParseError>(ParseError::InvalidJson),
        json_of_text(text) matches Some(j) ==> serie_of_text(text) == serie_of_json(j),
{
}

/// A series document: without a string `id` it is refused as
/// `MissingId`; with one, the series has that id and the names
/// `name.en` and `name.ja` where they are strings, and no logo.
pub proof fn lemma_serie_fields(j: Json)
    ensures
        j.at("id"@).text() is None ==> serie_of_json(j) == Err::<SerieView, ParseError>(ParseError::MissingId),
        j.at("id"@).text() matches Some(id) ==> {
            &&& serie_of_json(j) is Ok
            &&& serie_of_json(j)->Ok_0.id == id
            &&& serie_of_json(j)->Ok_0.name_en == j.at("name"@).at("en"@).text()
            &&& serie_of_json(j)->Ok_0.name_ja == j.at("name"@).at("ja"@).text()
            &&& serie_of_json(j)->Ok_0.logo is None
        },
{
}

/// A set file is read as the JSON document it holds.
pub proof fn lemma_set_text_is_its_document(text: Seq<char>, serie_id: Seq<char>)
    ensures
        json_of_text(text) is None ==> set_of_text(text, serie_id) == Err::<SetView, ParseError>(
            ParseError::InvalidJson,
        ),
        json_of_text(text) matches Some(j) ==> set_of_text(text, serie_id) == set_of_json(j, serie_id),
{
}

/// A set document: without a string `id` it is refused as `MissingId`;
/// with one, the set has that id, belongs to `serie_id`, and carries
/// `name.en`, `name.ja`, `releaseDate` and `tcgOnline` where they are
/// strings, and `cardCount.official` (cut to 32 bits) as its card count,
/// 0 where that is not an integer.
pub proof fn lemma_set_fields(j: Json, serie_id: Seq<char>)
    ensures
        j.at("id"@).text() is None ==> set_of_json(j, serie_id) == Err::<SetView, ParseError>(
            ParseError::MissingId,
        ),
        j.at("id"@).text() matches Some(id) ==> {
            let st = set_of_json(j, serie_id)->Ok_0;
            &&& set_of_json(j, serie_id) is Ok
            &&& st.id == id
            &&& st.serie_id == serie_id
            &&& st.name_en == j.at("name"@).at("en"@).text()
            &&& st.name_ja == j.at("name"@).at("ja"@).text()
            &&& st.release_date == j.at("releaseDate"@).text()
            &&& st.tcg_online == j.at("tcgOnline"@).text()
            &&& (j.at("cardCount"@).at("official"@).integer() matches Some(n) ==> st.total_cards == n as i32)
            &&& (j.at("cardCount"@).at("official"@).integer() is None ==> st.total_cards == 0)
        },
{
}

/// A card file is read as the JSON document it holds.
pub proof fn lemma_card_text_is_its_document(text: Seq<char>, stem: Option<Seq<char>>, lang: Seq<char>)
    ensures
        json_of_text(text) is None ==> card_of_text(text, stem, lang) == Err::<CardView, ParseError>(
            ParseError::InvalidJson,
        ),
        json_of_text(text) matches Some(j) ==> card_of_text(text, stem, lang) == card_of_json(j, stem, lang),
{
}

/// The strings among JSON values: none among none, and one more value
/// adds its text where it is a string.
pub proof fn lemma_texts_among_step(items: Seq<Json>, v: Json)
    ensures
        texts_among(Seq::<Json>::empty()) == Seq::<Seq<char>>::empty(),
        v.text() matches Some(t) ==> texts_among(items.push(v)) == texts_among(items).push(t),
        v.text() is None ==> texts_among(items.push(v)) == texts_among(items),
{
    assert(items.push(v).drop_last() =~= items);
}

/// A card document read in language `lang` from a file named `stem`: the
/// card's number in its set is the file name; its name is `name[lang]`,
/// else `name.en`, else "Unknown"; its category is `category`, else
/// "Pokemon"; its hit points are the integer `hp` cut to 32 bits; its
/// Pokédex number is the first of `dexId`, where that is an integer; its
/// types are the JSON text of the strings among `types`; `rarity`,
/// `stage` and `illustrator` are taken where they are strings; what it
/// evolves from and its description are given in `lang`, else in English;
/// it has no image.  Without a file name it is refused.
pub proof fn lemma_card_fields(j: Json, stem: Seq<char>, lang: Seq<char>)
    ensures
        card_of_json(j, None, lang) == Err::<CardView, ParseError>(ParseError::InvalidFileName),
        card_of_json(j, Some(stem), lang) is Ok,
        ({
            let c = card_of_json(j, Some(stem), lang)->Ok_0;
            let name = j.at("name"@);
            &&& c.local_id == stem
            &&& (name.at(lang).text() matches Some(n) ==> c.name == n)
            &&& (name.at(lang).text() is None ==> (name.at("en"@).text() matches Some(n) ==> c.name == n))
            &&& (name.at(lang).text() is None && name.at("en"@).text() is None ==> c.name == "Unknown"@)
            &&& (j.at("category"@).text() matches Some(k) ==> c.category == k)
            &&& (j.at("category"@).text() is None ==> c.category == "Pokemon"@)
            &&& (j.at("hp"@).integer() matches Some(h) ==> c.hp == Some(h as i32))
            &&& (j.at("hp"@).integer() is None ==> c.hp is None)
            &&& (j.at("types"@).items() is None ==> c.types is None)
            &&& (j.at("types"@).items() matches Some(items) ==> c.types == Some(
                json_text_of_strings(texts_among(items)),
            ))
            &&& (j.at("dexId"@).items() is None ==> c.dex_id is None)
            &&& (j.at("dexId"@).items() matches Some(items) ==> (items.len() == 0 ==> c.dex_id is None))
            &&& (j.at("dexId"@).items() matches Some(items) ==> (items.len() > 0 ==> (items[0].integer() matches Some(d)
                ==> c.dex_id == Some(d as i32))))
            &&& (j.at("dexId"@).items() matches Some(items) ==> (items.len() > 0 ==> (items[0].integer() is None
                ==> c.dex_id is None)))
            &&& c.rarity == j.at("rarity"@).text()
            &&& c.stage == j.at("stage"@).text()
            &&& c.illustrator == j.at("illustrator"@).text()
            &&& (j.at("evolveFrom"@).at(lang).text() matches Some(e) ==> c.evolves_from == Some(e))
            &&& (j.at("evolveFrom"@).at(lang).text() is None ==> c.evolves_from == j.at("evolveFrom"@).at(
                "en"@,
            ).text())
            &&& (j.at("description"@).at(lang).text() matches Some(d) ==> c.description == Some(d))
            &&& (j.at("description"@).at(lang).text() is None ==> c.description == j.at("description"@).at(
                "en"@,
            ).text())
            &&& c.image is None
        }),
{
}

/// The cards of one card file, read in language `lang`: the card it holds
/// where it can be read, none otherwise.
pub proof fn lemma_cards_of_one_file(f: CardFile, lang: Seq<char>)
    ensures
        cards_of_files(seq![f], lang) == match card_of_text(f.content@, f.stem.deep_view(), lang) {
            Ok(c) => seq![c],
            Err(_) => Seq::<CardView>::empty(),
        },
{
    assert(seq![f].drop_last() =~= Seq::<CardFile>::empty());
    assert(seq![f].last() == f);
    assert(cards_of_files(Seq::<CardFile>::empty(), lang) == Seq::<CardView>::empty());
    assert(cards_of_files(seq![f].drop_last(), lang) == Seq::<CardView>::empty());
    assert(Seq::<CardView>::empty().push(card_of_text(f.content@, f.stem.deep_view(), lang)->Ok_0)
        =~= seq![card_of_text(f.content@, f.stem.deep_view(), lang)->Ok_0]);
}

/// Reading two runs of card files one after the other gives the cards of
/// the first run, then those of the second.
pub proof fn lemma_cards_of_files_append(a: Seq<CardFile>, b: Seq<CardFile>, lang: Seq<char>)
    ensures
        cards_of_files(a + b, lang) == cards_of_files(a, lang) + cards_of_files(b, lang),
    decreases b.len(),
{
    if b.len() == 0 {
        assert(a + b =~= a);
        assert(cards_of_files(a, lang) + cards_of_files(b, lang) =~= cards_of_files(a, lang));
    } else {
        lemma_cards_of_files_append(a, b.drop_last(), lang);
        assert((a + b).drop_last() =~= a + b.drop_last());
        assert((a + b).last() == b.last());
        let ra = cards_of_files(a, lang);
        let rb = cards_of_files(b.drop_last(), lang);
        match card_of_text(b.last().content@, b.last().stem.deep_view(), lang) {
            Ok(c) => {
                assert((ra + rb).push(c) =~= ra + rb.push(c));
            },
            Err(_) => {},
        }
    }
}

/// Storing the cards of `sets` leaves the cards of any set id that none
/// of them has as they were.
proof fn lemma_cards_into_other(
    m: Map<Seq<char>, Seq<CardView>>,
    sets: Seq<SetFile>,
    serie_id: Seq<char>,
    lang: Seq<char>,
    k: Seq<char>,
)
    requires
        forall|j: int| 0 <= j < sets.len() ==> #[trigger] set_view_of(sets[j], serie_id).id != k,
    ensures
        cards_into(m, sets, serie_id, lang).contains_key(k) == m.contains_key(k),
        cards_into(m, sets, serie_id, lang)[k] == m[k],
    decreases sets.len(),
{
    if sets.len() > 0 {
        let init = sets.drop_last();
        assert forall|j: int| 0 <= j < init.len() implies #[trigger] set_view_of(init[j], serie_id).id != k by {
            assert(init[j] == sets[j]);
        }
        assert(set_view_of(sets[sets.len() - 1], serie_id).id != k);
        lemma_cards_into_other(m, init, serie_id, lang, k);
    }
}

/// After storing the cards of `sets`, the set at position `j` has the cards
/// of its own card files, where no later set has its id.
proof fn lemma_cards_into_at(
    m: Map<Seq<char>, Seq<CardView>>,
    sets: Seq<SetFile>,
    serie_id: Seq<char>,
    lang: Seq<char>,
    j: int,
)
    requires
        0 <= j < sets.len(),
        forall|j2: int|
            j < j2 < sets.len() ==> #[trigger] set_view_of(sets[j2], serie_id).id != set_view_of(
                sets[j],
                serie_id,
            ).id,
    ensures
        cards_into(m, sets, serie_id, lang).contains_key(set_view_of(sets[j], serie_id).id),
        cards_into(m, sets, serie_id, lang)[set_view_of(sets[j], serie_id).id] == cards_of_files(
            sets[j].cards@,
            lang,
        ),
    decreases sets.len(),
{
    let init = sets.drop_last();
    if j < sets.len() - 1 {
        assert(init[j] == sets[j]);
        assert forall|j2: int| j < j2 < init.len() implies #[trigger] set_view_of(init[j2], serie_id).id
            != set_view_of(init[j], serie_id).id by {
            assert(init[j2] == sets[j2]);
        }
        assert(set_view_of(sets[sets.len() - 1], serie_id).id != set_view_of(sets[j], serie_id).id);
        lemma_cards_into_at(m, init, serie_id, lang, j);
    }
}

/// The id of the set at position `j` of the series file at position `i`.
pub open spec fn set_id_at(files: Seq<SerieFile>, i: int, j: int) -> Seq<char> {
    set_view_of(files[i].sets@[j], serie_id_of(files[i])).id
}

/// Loading a language from its series files stores, for a set, the cards of
/// that set's own card files read in that language, where no later set
/// file (in a later series, or later in the same series) has the same id.
pub proof fn lemma_loaded_set_cards(old: CatalogView, lang: Seq<char>, files: Seq<SerieFile>, i: int, j: int)
    requires
        0 <= i < files.len(),
        0 <= j < files[i].sets@.len(),
        forall|i2: int, j2: int|
            0 <= i2 < files.len() && 0 <= j2 < files[i2].sets@.len() && (i < i2 || (i == i2 && j < j2))
                ==> #[trigger] set_id_at(files, i2, j2) != set_id_at(files, i, j),
    ensures
        with_language(old, lang, files).cards[lang].contains_key(set_id_at(files, i, j)),
        with_language(old, lang, files).cards[lang][set_id_at(files, i, j)] == cards_of_files(
            files[i].sets@[j].cards@,
            lang,
        ),
{
    lemma_cards_map_at(files, lang, i, j);
}

proof fn lemma_cards_map_at(files: Seq<SerieFile>, lang: Seq<char>, i: int, j: int)
    requires
        0 <= i < files.len(),
        0 <= j < files[i].sets@.len(),
        forall|i2: int, j2: int|
            0 <= i2 < files.len() && 0 <= j2 < files[i2].sets@.len() && (i < i2 || (i == i2 && j < j2))
                ==> #[trigger] set_id_at(files, i2, j2) != set_id_at(files, i, j),
    ensures
        cards_map_of(files, lang).contains_key(set_id_at(files, i, j)),
        cards_map_of(files, lang)[set_id_at(files, i, j)] == cards_of_files(files[i].sets@[j].cards@, lang),
    decreases files.len(),
{
    let n = files.len();
    let init = files.drop_last();
    let f = files.last();
    let k = set_id_at(files, i, j);
    assert(f == files[n - 1]);
    if i == n - 1 {
        assert forall|j2: int| j < j2 < f.sets@.len() implies #[trigger] set_view_of(f.sets@[j2], serie_id_of(f)).id
            != set_view_of(f.sets@[j], serie_id_of(f)).id by {
            assert(set_id_at(files, n - 1, j2) != k);
        }
        lemma_cards_into_at(cards_map_of(init, lang), f.sets@, serie_id_of(f), lang, j);
    } else {
        assert(init[i] == files[i]);
        assert forall|i2: int, j2: int|
            0 <= i2 < init.len() && 0 <= j2 < init[i2].sets@.len() && (i < i2 || (i == i2 && j < j2))
                implies #[trigger] set_id_at(init, i2, j2) != set_id_at(init, i, j) by {
            assert(init[i2] == files[i2]);
            assert(set_id_at(files, i2, j2) != k);
        }
        lemma_cards_map_at(init, lang, i, j);
        assert(set_id_at(init, i, j) == k);
        assert forall|j2: int| 0 <= j2 < f.sets@.len() implies #[trigger] set_view_of(f.sets@[j2], serie_id_of(f)).id
            != k by {
            assert(set_id_at(files, n - 1, j2) != k);
        }
        lemma_cards_into_other(cards_map_of(init, lang), f.sets@, serie_id_of(f), lang, k);
    }
}

/// Loading a language lists its series in the order of their files, each
/// as its file reads; and stores under a series' id the sets of that
/// series' own set files, each as its file reads for that series, where no
/// later series file has the same id.
pub proof fn lemma_loaded_series_and_sets(old: CatalogView, lang: Seq<char>, files: Seq<SerieFile>, i: int)
    requires
        0 <= i < files.len(),
    ensures
        with_language(old, lang, files).series[lang].len() == files.len(),
        with_language(old, lang, files).series[lang][i] == serie_of_text(files[i].content@)->Ok_0,
        (forall|i2: int| i < i2 < files.len() ==> #[trigger] serie_id_of(files[i2]) != serie_id_of(files[i])) ==> {
            let st = with_language(old, lang, files).sets[lang];
            &&& st.contains_key(serie_id_of(files[i]))
            &&& st[serie_id_of(files[i])].len() == files[i].sets@.len()
            &&& forall|j: int|
                0 <= j < files[i].sets@.len() ==> #[trigger] st[serie_id_of(files[i])][j] == set_of_text(
                    files[i].sets@[j].content@,
                    serie_id_of(files[i]),
                )->Ok_0
        },
{
    if forall|i2: int| i < i2 < files.len() ==> #[trigger] serie_id_of(files[i2]) != serie_id_of(files[i]) {
        lemma_sets_map_at(files, i);
    }
}

proof fn lemma_sets_map_at(files: Seq<SerieFile>, i: int)
    requires
        0 <= i < files.len(),
        forall|i2: int| i < i2 < files.len() ==> #[trigger] serie_id_of(files[i2]) != serie_id_of(files[i]),
    ensures
        sets_map_of(files).contains_key(serie_id_of(files[i])),
        sets_map_of(files)[serie_id_of(files[i])] == set_views_of(files[i].sets@, serie_id_of(files[i])),
    decreases files.len(),
{
    let n = files.len();
    let init = files.drop_last();
    assert(files.last() == files[n - 1]);
    if i < n - 1 {
        assert(init[i] == files[i]);
        assert forall|i2: int| i < i2 < init.len() implies #[trigger] serie_id_of(init[i2]) != serie_id_of(init[i]) by {
            assert(init[i2] == files[i2]);
        }
        lemma_sets_map_at(init, i);
        assert(serie_id_of(files[n - 1]) != serie_id_of(files[i]));
    }
}

/// A catalogue read from the files of several languages holds, for each
/// language, what the last files given for it hold.
pub proof fn lemma_catalog_language(languages: Seq<LanguageFiles>, m: int)
    requires
        0 <= m < languages.len(),
        forall|m2: int| m < m2 < languages.len() ==> #[trigger] languages[m2].lang@ != languages[m].lang@,
    ensures
        ({
            let v = catalog_of(languages);
            let lang = languages[m].lang@;
            let files = languages[m].series->0@;
            &&& v.series.contains_key(lang)
            &&& v.series[lang] == series_views_of(files)
            &&& v.sets[lang] == sets_map_of(files)
            &&& v.cards[lang] == cards_map_of(files, lang)
        }),
    decreases languages.len(),
{
    let n = languages.len();
    let init = languages.drop_last();
    if m < n - 1 {
        assert(init[m] == languages[m]);
        assert forall|m2: int| m < m2 < init.len() implies #[trigger] init[m2].lang@ != init[m].lang@ by {
            assert(init[m2] == languages[m2]);
        }
        lemma_catalog_language(init, m);
        assert(languages.last() == languages[n - 1]);
    }
}

/// The cards that can be read from a set's card files, in order.
fn read_cards(cards: &Vec<CardFile>, lang: &str) -> (r: Vec<CardData>)
    ensures
        r.deep_view() == cards_of_files(cards@, lang@),
{
    let mut r: Vec<CardData> = Vec::new();
    let mut k: usize = 0;
    while k < cards.len()
        invariant
            k <= cards@.len(),
            r.deep_view() == cards_of_files(cards@.take(k as int), lang@),
        decreases cards@.len() - k,
    {
        assert(cards@.take(k + 1).drop_last() =~= cards@.take(k as int));
        let f = &cards[k];
        let stem: Option<&str> = match &f.stem {
            Some(st) => Some(st.as_str()),
            None => None,
        };
        assert(stem.deep_view() == f.stem.deep_view());
        let ghost before = r.deep_view();
        match parse_card_text(f.content.as_str(), stem, lang) {
            Ok(c) => {
                r.push(c);
                assert(r.deep_view() =~= before.push(c@));
            },
            Err(_) => {},
        }
        k = k + 1;
    }
    assert(cards@.take(cards@.len() as int) =~= cards@);
    r
}

/// Reads the set files of the series `serie_id`, storing the cards of each
/// set in `cards`; stops at the first set file that cannot be read, giving
/// its position.
fn read_sets(
    sets: &Vec<SetFile>,
    serie_id: &str,
    lang: &str,
    cards: &mut StrMap<Vec<CardData>>,
) -> (r: Result<Vec<SetData>, (usize, ParseError)>)
    ensures
        match r {
            Ok(v) => {
                &&& forall|j: int| 0 <= j < sets@.len() ==> (#[trigger] set_of_text(sets@[j].content@, serie_id@)) is Ok
                &&& v.deep_view() == set_views_of(sets@, serie_id@)
                &&& final(cards)@ == cards_into(old(cards)@, sets@, serie_id@, lang@)
            },
            Err((j, e)) => {
                &&& j < sets@.len()
                &&& forall|m: int| 0 <= m < j ==> (#[trigger] set_of_text(sets@[m].content@, serie_id@)) is Ok
                &&& set_of_text(sets@[j as int].content@, serie_id@) == Err::<SetView, ParseError>(e)
            },
        },
{
    let mut v: Vec<SetData> = Vec::new();
    let mut j: usize = 0;
    assert(cards_into(cards@, sets@.take(0), serie_id@, lang@) == cards@);
    while j < sets.len()
        invariant
            j <= sets@.len(),
            forall|m: int| 0 <= m < j ==> (#[trigger] set_of_text(sets@[m].content@, serie_id@)) is Ok,
            v.deep_view() == set_views_of(sets@.take(j as int), serie_id@),
            cards@ == cards_into(old(cards)@, sets@.take(j as int), serie_id@, lang@),
        decreases sets@.len() - j,
    {
        let f = &sets[j];
        let set = match parse_set_text(f.content.as_str(), serie_id) {
            Ok(st) => st,
            Err(e) => return Err((j, e)),
        };
        let card_list = read_cards(&f.cards, lang);
        let ghost before_v = v.deep_view();
        let ghost sv = set@;
        assert(sv == set_view_of(sets@[j as int], serie_id@));
        cards.insert(set.id.clone(), card_list);
        v.push(set);
        proof {
            assert(v.deep_view() =~= before_v.push(sv));
            let t = sets@.take(j + 1);
            assert(t.drop_last() =~= sets@.take(j as int));
            assert(t.last() == sets@[j as int]);
            assert(v.deep_view() =~= set_views_of(t, serie_id@));
        }
        j = j + 1;
    }
    assert(sets@.take(sets@.len() as int) =~= sets@);
    Ok(v)
}

impl CardsDatabase {
    #[verifier::type_invariant]
    closed spec fn consistent(&self) -> bool {
        catalog_consistent(self@)
    }

    /// A catalogue with no language loaded.
    pub fn empty() -> (r: Self)
        ensures
            r@ == empty_catalog(),
    {
        CardsDatabase { series: StrMap::new(), sets_by_serie: StrMap::new(), cards_by_set: StrMap::new() }
    }

    /// Reads the catalogue files of each language in turn, failing with
    /// the first language whose files cannot all be read.
    pub fn new(languages: &Vec<LanguageFiles>) -> (r: Result<Self, DatabaseError>)
        ensures
            match r {
                Ok(db) => {
                    &&& forall|i: int| 0 <= i < languages@.len() ==> #[trigger] language_files_ok(languages@[i])
                    &&& db@ == catalog_of(languages@)
                },
                Err(e) => exists|i: int|
                    0 <= i < languages@.len() && !language_files_ok(#[trigger] languages@[i])
                        && is_load_failure(languages@[i], e) && forall|k: int|
                        0 <= k < i ==> #[trigger] language_files_ok(languages@[k]),
            },
    {
        let mut db = CardsDatabase::empty();
        let mut i: usize = 0;
        while i < languages.len()
            invariant
                i <= languages@.len(),
                forall|k: int| 0 <= k < i ==> #[trigger] language_files_ok(languages@[k]),
                db@ == catalog_of(languages@.take(i as int)),
            decreases languages@.len() - i,
        {
            proof {
                let t = languages@.take(i + 1);
                assert(t.drop_last() =~= languages@.take(i as int));
                assert(t.last() == languages@[i as int]);
            }
            match db.load_language(&languages[i]) {
                Ok(()) => {},
                Err(e) => {
                    assert(!language_files_ok(languages@[i as int]) && is_load_failure(languages@[i as int], e));
                    return Err(e);
                },
            }
            i = i + 1;
        }
        assert(languages@.take(languages@.len() as int) =~= languages@);
        Ok(db)
    }

    /// Every catalogue is consistent: each loaded language has its sets and
    /// cards, each series listed has its sets, each set listed has its cards.
    pub fn check_consistent(&self)
        ensures
            catalog_consistent(self@),
    {
        proof {
            use_type_invariant(self);
        }
    }

    /// Reads the catalogue files of one language into the catalogue, in
    /// place of what it held for that language.  Card files that cannot be
    /// read are passed over; a missing directory, or a series or set file
    /// that cannot be read, fails the whole language and leaves the
    /// catalogue as it was.
    pub fn load_language(&mut self, files: &LanguageFiles) -> (r: Result<(), DatabaseError>)
        ensures
            match r {
                Ok(()) => {
                    &&& language_files_ok(*files)
                    &&& final(self)@ == with_language(old(self)@, files.lang@, files.series->0@)
                },
                Err(e) => {
                    &&& !language_files_ok(*files)
                    &&& is_load_failure(*files, e)
                    &&& final(self)@ == old(self)@
                },
            },
    {
        proof {
            use_type_invariant(&*self);
        }
        let ghost old_view = self@;
        let serie_files = match &files.series {
            Some(v) => v,
            None => return Err(DatabaseError::DirectoryNotFound { lang: files.lang.clone() }),
        };
        let lang = files.lang.as_str();
        let mut series: Vec<SerieData> = Vec::new();
        let mut sets_by_serie: StrMap<Vec<SetData>> = StrMap::new();
        let mut cards_by_set: StrMap<Vec<CardData>> = StrMap::new();
        let mut i: usize = 0;
        while i < serie_files.len()
            invariant
                i <= serie_files@.len(),
                self@ == old(self)@,
                files.series == Some(*serie_files),
                forall|k: int| 0 <= k < i ==> #[trigger] serie_file_ok(serie_files@[k]),
                series.deep_view() == series_views_of(serie_files@.take(i as int)),
                sets_by_serie@ == sets_map_of(serie_files@.take(i as int)),
                cards_by_set@ == cards_map_of(serie_files@.take(i as int), lang@),
            decreases serie_files@.len() - i,
        {
            let f = &serie_files[i];
            let serie = match parse_serie_text(f.content.as_str()) {
                Ok(sd) => sd,
                Err(e) => {
                    assert(!serie_file_ok(serie_files@[i as int]));
                    let err = DatabaseError::InvalidSerieFile { lang: files.lang.clone(), serie: i, reason: e };
                    assert(!language_files_ok(*files)) by {
                        assert(files.series->0@ == serie_files@);
                        assert(!serie_file_ok(files.series->0@[i as int]));
                    }
                    assert(is_load_failure(*files, err));
                    return Err(err);
                },
            };
            assert(serie.id@ == serie_id_of(*f));
            let set_list = match read_sets(&f.sets, serie.id.as_str(), lang, &mut cards_by_set) {
                Ok(v) => v,
                Err((j, e)) => {
                    assert(!serie_file_ok(serie_files@[i as int])) by {
                        assert(set_of_text(f.sets@[j as int].content@, serie_id_of(*f)) is Err);
                    }
                    let err = DatabaseError::InvalidSetFile { lang: files.lang.clone(), serie: i, set: j, reason: e };
                    assert(!language_files_ok(*files)) by {
                        assert(files.series->0@ == serie_files@);
                        assert(!serie_file_ok(files.series->0@[i as int]));
                    }
                    assert(is_load_failure(*files, err));
                    return Err(err);
                },
            };
            let ghost before_series = series.deep_view();
            let ghost sv = serie@;
            sets_by_serie.insert(serie.id.clone(), set_list);
            series.push(serie);
            proof {
                let t = serie_files@.take(i + 1);
                assert(t.drop_last() =~= serie_files@.take(i as int));
                assert(t.last() == serie_files@[i as int]);
                assert(series.deep_view() =~= before_series.push(sv));
                assert(series.deep_view() =~= series_views_of(t));
                assert(serie_file_ok(serie_files@[i as int]));
            }
            i = i + 1;
        }
        assert(serie_files@.take(serie_files@.len() as int) =~= serie_files@);
        proof {
            lemma_loaded_language_consistent(serie_files@, lang@);
            let nv = with_language(old_view, lang@, serie_files@);
            assert forall|l: Seq<char>| #[trigger] nv.series.contains_key(l) implies {
                &&& nv.sets.contains_key(l)
                &&& nv.cards.contains_key(l)
                &&& language_consistent(nv.series[l], nv.sets[l], nv.cards[l])
            } by {
                if l != lang@ {
                    assert(old_view.series.contains_key(l));
                }
            }
            assert(catalog_consistent(nv));
        }
        let mut all_series: StrMap<Vec<SerieData>> = StrMap::new();
        std::mem::swap(&mut all_series, &mut self.series);
        let mut all_sets: StrMap<StrMap<Vec<SetData>>> = StrMap::new();
        std::mem::swap(&mut all_sets, &mut self.sets_by_serie);
        let mut all_cards: StrMap<StrMap<Vec<CardData>>> = StrMap::new();
        std::mem::swap(&mut all_cards, &mut self.cards_by_set);
        all_series.insert(files.lang.clone(), series);
        all_sets.insert(files.lang.clone(), sets_by_serie);
        all_cards.insert(files.lang.clone(), cards_by_set);
        self.cards_by_set = all_cards;
        self.sets_by_serie = all_sets;
        self.series = all_series;
        Ok(())
    }

    /// The series of a language (`Language not loaded` where it was not).
    pub fn load_series(&self, lang_code: &str) -> (r: Result<Vec<SerieData>, DatabaseError>)
        ensures
            match r {
                Ok(v) => self@.series.contains_key(lang_code@) && v.deep_view() == self@.series[lang_code@],
                Err(e) => !self@.series.contains_key(lang_code@) && e.is_language_not_loaded(lang_code@),
            },
    {
        match self.series.get(lang_code) {
            Some(v) => {
                let c = v.clone();
                assert(c.deep_view() =~= v.deep_view()) by {
                    assert forall|i: int| 0 <= i < v@.len() implies c@[i] == v@[i] by {
                        assert(cloned::<SerieData>(v[i], c[i]));
                    }
                }
                Ok(c)
            },
            None => Err(DatabaseError::LanguageNotLoaded { lang: String::from_str(lang_code) }),
        }
    }

    /// The sets of a series in a language (`NoSets` where there are none).
    pub fn load_sets_for_series(&self, serie_id: &str, lang_code: &str) -> (r: Result<Vec<SetData>, DatabaseError>)
        ensures
            match r {
                Ok(v) => self@.sets.contains_key(lang_code@) && self@.sets[lang_code@].contains_key(serie_id@)
                    && v.deep_view() == self@.sets[lang_code@][serie_id@],
                Err(e) => !(self@.sets.contains_key(lang_code@) && self@.sets[lang_code@].contains_key(serie_id@))
                    && e.is_no_sets(serie_id@, lang_code@),
            },
    {
        let found = match self.sets_by_serie.get(lang_code) {
            Some(m) => m.get(serie_id),
            None => None,
        };
        match found {
            Some(v) => {
                let c = v.clone();
                assert(c.deep_view() =~= v.deep_view()) by {
                    assert forall|i: int| 0 <= i < v@.len() implies c@[i] == v@[i] by {
                        assert(cloned::<SetData>(v[i], c[i]));
                    }
                }
                Ok(c)
            },
            None => Err(DatabaseError::NoSets { serie_id: String::from_str(serie_id), lang: String::from_str(lang_code) }),
        }
    }

    /// The cards of a set in a language (`NoCards` where there are none).
    pub fn load_cards(&self, set_id: &str, lang_code: &str) -> (r: Result<Vec<CardData>, DatabaseError>)
        ensures
            match r {
                Ok(v) => self@.cards.contains_key(lang_code@) && self@.cards[lang_code@].contains_key(set_id@)
                    && v.deep_view() == self@.cards[lang_code@][set_id@],
                Err(e) => !(self@.cards.contains_key(lang_code@) && self@.cards[lang_code@].contains_key(set_id@))
                    && e.is_no_cards(set_id@, lang_code@),
            },
    {
        let found = match self.cards_by_set.get(lang_code) {
            Some(m) => m.get(set_id),
            None => None,
        };
        match found {
            Some(v) => {
                let c = v.clone();
                assert(c.deep_view() =~= v.deep_view()) by {
                    assert forall|i: int| 0 <= i < v@.len() implies c@[i] == v@[i] by {
                        assert(cloned::<CardData>(v[i], c[i]));
                    }
                }
                Ok(c)
            },
            None => Err(DatabaseError::NoCards { set_id: String::from_str(set_id), lang: String::from_str(lang_code) }),
        }
    }
}

} // verus!
