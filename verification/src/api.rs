//! The TCGdex API's answers about series, sets and cards, and their
//! language-qualified forms: every id an answer gives is prefixed with the
//! language it was asked in (`en-swsh1`), so that both languages can share
//! one store.

use vstd::prelude::*;

use crate::text::{concat, copy_opt, dash_join, dash_joined, i32_of_text, parse_i32};

verus! {

/// The card counts of a set.
#[derive(Debug, PartialEq, Eq, Structural, Clone, Copy)]
pub struct CardCountResume {
    pub total: u16,
    pub official: u16,
}

/// A set as a card answer names it.
#[derive(Debug, PartialEq)]
pub struct SetResume {
    pub id: String,
    pub name: String,
    pub card_count: CardCountResume,
    pub tcg_online: Option<String>,
    pub release_date: Option<String>,
}

/// A series as a set answer names it.
#[derive(Debug, PartialEq)]
pub struct SerieResume {
    pub id: String,
    pub name: String,
    pub logo: Option<String>,
}

/// An entry of the list of series, or of the sets of a series.
#[derive(Debug, PartialEq)]
pub struct SerieListItem {
    pub id: String,
    pub name: String,
}

#[derive(Debug, PartialEq)]
pub struct SerieListItemWithLang {
    pub id: String,
    pub name: String,
}

/// A series answer.
#[derive(Debug, PartialEq)]
pub struct Serie {
    pub id: String,
    pub name: String,
    pub logo: Option<String>,
    pub sets: Vec<SerieListItem>,
}

#[derive(Debug, PartialEq)]
pub struct SerieWithLang {
    pub id: String,
    pub name: String,
    pub logo: Option<String>,
    pub sets: Vec<SerieListItemWithLang>,
    pub language: String,
}

/// A set entry in a list of sets.
#[derive(Debug, PartialEq)]
pub struct SetListItem {
    pub id: String,
    pub name: String,
}

#[derive(Debug, PartialEq)]
pub struct SetListItemWithLang {
    pub id: String,
    pub name: String,
}

/// A set answer (named `Set` by the API).
#[derive(Debug, PartialEq)]
pub struct ApiSet {
    pub id: String,
    pub name: String,
    pub logo: Option<String>,
    pub symbol: Option<String>,
    pub card_count: CardCountResume,
    pub serie: SerieResume,
    pub tcg_online: Option<String>,
    pub release_date: String,
    pub cards: Vec<CardResume>,
}

#[derive(Debug, PartialEq)]
pub struct SetWithLang {
    pub id: String,
    pub name: String,
    pub logo: Option<String>,
    pub symbol: Option<String>,
    pub card_count: CardCountResume,
    pub serie_id: String,
    pub serie_name: String,
    pub tcg_online: Option<String>,
    pub release_date: String,
    pub cards: Vec<CardResumeWithLang>,
    pub language: String,
}

/// A card entry in a set answer.
#[derive(Debug, PartialEq)]
pub struct CardResume {
    pub id: String,
    pub name: String,
    pub local_id: String,
    pub image: Option<String>,
}

#[derive(Debug, PartialEq)]
pub struct CardResumeWithLang {
    pub raw_id: String,
    pub id: String,
    pub name: String,
    pub local_id: String,
    pub image: Option<String>,
}

/// A card answer.
#[derive(Debug, PartialEq)]
pub struct CardDetails {
    pub id: String,
    pub local_id: String,
    pub name: String,
    pub category: Option<String>,
    pub dex_ids: Option<Vec<i32>>,
    pub hp: Option<i32>,
    pub types: Option<Vec<String>>,
    pub rarity: Option<String>,
    pub image: Option<String>,
    pub stage: Option<String>,
    pub evolves_from: Option<String>,
    pub illustrator: Option<String>,
    pub description: Option<String>,
    pub set: SetResume,
}

#[derive(Debug, PartialEq)]
pub struct CardDetailsWithLang {
    pub id: String,
    pub local_id: String,
    pub name: String,
    pub category: Option<String>,
    pub dex_ids: Option<Vec<i32>>,
    pub hp: Option<i32>,
    pub types: Option<Vec<String>>,
    pub rarity: Option<String>,
    pub image: Option<String>,
    pub stage: Option<String>,
    pub evolves_from: Option<String>,
    pub illustrator: Option<String>,
    pub description: Option<String>,
    pub set_id: String,
    pub set_name: String,
    pub language: String,
}

impl SerieListItem {
    /// The entry as the series list gives it: its id is left as it is.
    pub fn with_lang(&self, _lang: &str) -> (r: SerieListItemWithLang)
        ensures
            r.id == self.id,
            r.name == self.name,
    {
        SerieListItemWithLang { id: self.id.clone(), name: self.name.clone() }
    }
}

impl Serie {
    /// The series in language `lang`: its id qualified by the language,
    /// its set entries as `SerieListItem::with_lang` gives them.
    pub fn with_lang(&self, lang: &str) -> (r: SerieWithLang)
        ensures
            r.id@ == dash_joined(lang@, self.id@),
            r.name == self.name,
            r.logo == self.logo,
            r.sets@.len() == self.sets@.len(),
            forall|i: int|
                0 <= i < self.sets@.len() ==> #[trigger] r.sets@[i].id == self.sets@[i].id
                    && r.sets@[i].name == self.sets@[i].name,
            r.language@ == lang@,
    {
        let mut sets: Vec<SerieListItemWithLang> = Vec::new();
        let mut i: usize = 0;
        while i < self.sets.len()
            invariant
                i <= self.sets@.len(),
                sets@.len() == i,
                forall|k: int|
                    0 <= k < i ==> #[trigger] sets@[k].id == self.sets@[k].id && sets@[k].name
                        == self.sets@[k].name,
            decreases self.sets@.len() - i,
        {
            let e = self.sets[i].with_lang(lang);
            let ghost before = sets@;
            sets.push(e);
            assert forall|k: int| 0 <= k < i + 1 implies #[trigger] sets@[k].id == self.sets@[k].id
                && sets@[k].name == self.sets@[k].name by {
                if k < i {
                    assert(sets@[k] == before[k]);
                }
            }
            i = i + 1;
        }
        SerieWithLang {
            id: dash_join(lang, self.id.as_str()),
            name: self.name.clone(),
            logo: copy_opt(&self.logo),
            sets,
            language: String::from_str(lang),
        }
    }
}

impl SetListItem {
    /// The entry in language `lang`: its id qualified by the language.
    pub fn with_lang(&self, lang: &str) -> (r: SetListItemWithLang)
        ensures
            r.id@ == dash_joined(lang@, self.id@),
            r.name == self.name,
    {
        SetListItemWithLang { id: dash_join(lang, self.id.as_str()), name: self.name.clone() }
    }
}

impl CardResume {
    /// The entry in language `lang`: its id qualified by the language, the
    /// id as the API gives it kept as `raw_id`.
    pub fn with_lang(&self, lang: &str) -> (r: CardResumeWithLang)
        ensures
            r.raw_id == self.id,
            r.id@ == dash_joined(lang@, self.id@),
            r.name == self.name,
            r.local_id == self.local_id,
            r.image == self.image,
    {
        CardResumeWithLang {
            raw_id: self.id.clone(),
            id: dash_join(lang, self.id.as_str()),
            name: self.name.clone(),
            local_id: self.local_id.clone(),
            image: copy_opt(&self.image),
        }
    }
}

impl ApiSet {
    /// The set in language `lang`: its id and its series' id qualified by
    /// the language, its cards as `CardResume::with_lang` gives them.
    pub fn with_lang(&self, lang: &str) -> (r: SetWithLang)
        ensures
            r.id@ == dash_joined(lang@, self.id@),
            r.name == self.name,
            r.logo == self.logo,
            r.symbol == self.symbol,
            r.card_count == self.card_count,
            r.serie_id@ == dash_joined(lang@, self.serie.id@),
            r.serie_name == self.serie.name,
            r.tcg_online == self.tcg_online,
            r.release_date == self.release_date,
            r.cards@.len() == self.cards@.len(),
            forall|i: int|
                0 <= i < self.cards@.len() ==> {
                    &&& #[trigger] r.cards@[i].raw_id == self.cards@[i].id
                    &&& r.cards@[i].id@ == dash_joined(lang@, self.cards@[i].id@)
                    &&& r.cards@[i].name == self.cards@[i].name
                    &&& r.cards@[i].local_id == self.cards@[i].local_id
                    &&& r.cards@[i].image == self.cards@[i].image
                },
            r.language@ == lang@,
    {
        let mut cards: Vec<CardResumeWithLang> = Vec::new();
        let mut i: usize = 0;
        while i < self.cards.len()
            invariant
                i <= self.cards@.len(),
                cards@.len() == i,
                forall|k: int|
                    0 <= k < i ==> {
                        &&& #[trigger] cards@[k].raw_id == self.cards@[k].id
                        &&& cards@[k].id@ == dash_joined(lang@, self.cards@[k].id@)
                        &&& cards@[k].name == self.cards@[k].name
                        &&& cards@[k].local_id == self.cards@[k].local_id
                        &&& cards@[k].image == self.cards@[k].image
                    },
            decreases self.cards@.len() - i,
        {
            let c = self.cards[i].with_lang(lang);
            let ghost before = cards@;
            cards.push(c);
            assert forall|k: int| 0 <= k < i + 1 implies {
                &&& #[trigger] cards@[k].raw_id == self.cards@[k].id
                &&& cards@[k].id@ == dash_joined(lang@, self.cards@[k].id@)
                &&& cards@[k].name == self.cards@[k].name
                &&& cards@[k].local_id == self.cards@[k].local_id
                &&& cards@[k].image == self.cards@[k].image
            } by {
                if k < i {
                    assert(cards@[k] == before[k]);
                }
            }
            i = i + 1;
        }
        SetWithLang {
            id: dash_join(lang, self.id.as_str()),
            name: self.name.clone(),
            logo: copy_opt(&self.logo),
            symbol: copy_opt(&self.symbol),
            card_count: self.card_count,
            serie_id: dash_join(lang, self.serie.id.as_str()),
            serie_name: self.serie.name.clone(),
            tcg_online: copy_opt(&self.tcg_online),
            release_date: self.release_date.clone(),
            cards,
            language: String::from_str(lang),
        }
    }
}

impl CardDetails {
    /// The card in language `lang`: its id and its set's id qualified by
    /// the language; every other field moved over as it is.
    pub fn with_lang(self, lang: &str) -> (r: CardDetailsWithLang)
        ensures
            r.id@ == dash_joined(lang@, self.id@),
            r.local_id == self.local_id,
            r.name == self.name,
            r.category == self.category,
            r.dex_ids == self.dex_ids,
            r.hp == self.hp,
            r.types == self.types,
            r.rarity == self.rarity,
            r.image == self.image,
            r.stage == self.stage,
            r.evolves_from == self.evolves_from,
            r.illustrator == self.illustrator,
            r.description == self.description,
            r.set_id@ == dash_joined(lang@, self.set.id@),
            r.set_name == self.set.name,
            r.language@ == lang@,
    {
        CardDetailsWithLang {
            id: dash_join(lang, self.id.as_str()),
            set_id: dash_join(lang, self.set.id.as_str()),
            local_id: self.local_id,
            name: self.name,
            category: self.category,
            dex_ids: self.dex_ids,
            hp: self.hp,
            types: self.types,
            rarity: self.rarity,
            image: self.image,
            stage: self.stage,
            evolves_from: self.evolves_from,
            illustrator: self.illustrator,
            description: self.description,
            set_name: self.set.name,
            language: String::from_str(lang),
        }
    }
}

/// Why an `hp` value could not be taken as a number of hit points.
#[derive(Debug, PartialEq, Eq, Structural, Clone, Copy)]
pub enum HpError {
    /// A signed integer outside the range of an `i32`.
    SignedOutOfRange(i64),
    /// An unsigned integer above `i32::MAX`.
    UnsignedOutOfRange(u64),
}

/// Hit points given as a signed integer: kept where an `i32` holds them.
pub fn hp_from_i64(value: i64) -> (r: Result<Option<i32>, HpError>)
    ensures
        (i32::MIN <= value <= i32::MAX) ==> r == Ok::<Option<i32>, HpError>(Some(value as i32)),
        !(i32::MIN <= value <= i32::MAX) ==> r == Err::<Option<i32>, HpError>(HpError::SignedOutOfRange(value)),
{
    if value >= -2147483648i64 && value <= 2147483647i64 {
        Ok(Some(value as i32))
    } else {
        Err(HpError::SignedOutOfRange(value))
    }
}

/// Hit points given as an unsigned integer: kept where an `i32` holds them.
pub fn hp_from_u64(value: u64) -> (r: Result<Option<i32>, HpError>)
    ensures
        value <= i32::MAX ==> r == Ok::<Option<i32>, HpError>(Some(value as i32)),
        value > i32::MAX ==> r == Err::<Option<i32>, HpError>(HpError::UnsignedOutOfRange(value)),
{
    if value <= 2147483647u64 {
        Ok(Some(value as i32))
    } else {
        Err(HpError::UnsignedOutOfRange(value))
    }
}

/// Hit points given as text: the number it writes, or none where it
/// writes no `i32` (text such as `"70+"` gives none rather than an error).
pub fn hp_from_str(value: &str) -> (r: Option<i32>)
    ensures
        r == i32_of_text(value@),
{
    parse_i32(value)
}

/// The root of the TCGdex API.
pub open spec fn api_root() -> Seq<char> {
    "https://api.tcgdex.net/v2/"@
}

/// The address of a card in a language.
pub fn card_url(lang: &str, card_id: &str) -> (r: String)
    ensures
        r@ == api_root() + lang@ + "/cards/"@ + card_id@,
{
    let mut r = concat("https://api.tcgdex.net/v2/", lang);
    r.append("/cards/");
    r.append(card_id);
    r
}

/// The address of a series in a language.
pub fn serie_url(lang: &str, serie_id: &str) -> (r: String)
    ensures
        r@ == api_root() + lang@ + "/series/"@ + serie_id@,
{
    let mut r = concat("https://api.tcgdex.net/v2/", lang);
    r.append("/series/");
    r.append(serie_id);
    r
}

/// The address of the list of series in a language.
pub fn series_list_url(lang: &str) -> (r: String)
    ensures
        r@ == api_root() + lang@ + "/series"@,
{
    let mut r = concat("https://api.tcgdex.net/v2/", lang);
    r.append("/series");
    r
}

/// The address of a set in a language.
pub fn set_url(lang: &str, set_id: &str) -> (r: String)
    ensures
        r@ == api_root() + lang@ + "/sets/"@ + set_id@,
{
    let mut r = concat("https://api.tcgdex.net/v2/", lang);
    r.append("/sets/");
    r.append(set_id);
    r
}

/// Why an API answer could not be used.
#[derive(Debug, PartialEq)]
pub enum ApiError {
    /// The API answered `url` with a status outside 200..=299.
    Status { status: u16, url: String },
    /// The answer to `url` could not be read as what was asked for.
    Parse { url: String, message: String },
}

/// A status in 200..=299 (`StatusCode::is_success`).
pub open spec fn is_success(status: u16) -> bool {
    200 <= status <= 299
}

/// An answer with status `status` to `url` can be used only where the
/// status is a success.
pub fn check_status(status: u16, url: &str) -> (r: Result<(), ApiError>)
    ensures
        is_success(status) <==> r is Ok,
        r matches Err(e) ==> (e matches ApiError::Status { status: s, url: u } && s == status && u@ == url@),
{
    if 200 <= status && status <= 299 {
        Ok(())
    } else {
        Err(ApiError::Status { status, url: String::from_str(url) })
    }
}

} // verus!
