//! What the store holds, and the rules that turn catalogue entries into the
//! rows written to it and requests into the queries read from it.

use vstd::prelude::*;

use crate::cards_database::{CardData, SerieData, SetData};
use crate::text::{concat, copy_opt, dash_join, dash_joined, text_or};

verus! {

/// A stored series.
#[derive(Debug, PartialEq)]
pub struct Series {
    pub id: String,
    pub name: String,
    pub logo: Option<String>,
    pub symbol: Option<String>,
}

/// A stored set (the row type that the store calls `Set`); `finished`
/// records that all of its cards were stored.
#[derive(Debug, PartialEq)]
pub struct DbSet {
    pub id: String,
    pub name: String,
    pub logo: Option<String>,
    pub symbol: Option<String>,
    pub serie_id: String,
    pub release_date: String,
    pub tcg_online: Option<String>,
    pub total_cards: i32,
    pub finished: bool,
}

/// A stored card.
#[derive(Debug, PartialEq)]
pub struct Card {
    pub id: String,
    pub set_id: String,
    pub local_id: String,
    pub name: String,
    pub category: String,
    pub hp: Option<i32>,
    pub types: Option<String>,
    pub dex_id: Option<i32>,
    pub rarity: String,
    pub image: Option<String>,
    pub stage: Option<String>,
    pub evolves_from: Option<String>,
    pub illustrator: Option<String>,
    pub description: Option<String>,
}

/// A card and the Pokédex number it shows.
#[derive(Debug, PartialEq)]
pub struct PokemonIndex {
    pub card_id: String,
    pub dex_id: i32,
}

/// A Pokédex number marked as collected.
#[derive(Debug, PartialEq, Eq, Structural, Clone, Copy)]
pub struct CollectedPokemon {
    pub dex_id: i32,
}

/// How many of the Pokédex numbers that appear on cards are collected.
#[derive(Debug, PartialEq, Eq, Structural, Clone, Copy)]
pub struct PokedexCompletion {
    pub collected: i64,
    pub total: i64,
}

/// A card showing a given Pokédex number, with the set it belongs to.
#[derive(Debug, PartialEq)]
pub struct CardSetInfo {
    pub card_id: String,
    pub set_id: String,
    pub set_name: String,
    pub local_id: String,
    pub rarity: String,
}

/// How many uncollected Pokédex numbers a set has cards for.
#[derive(Debug, PartialEq)]
pub struct SetMissingStats {
    pub set_id: String,
    pub set_name: String,
    pub missing: i64,
}

/// An uncollected Pokédex number that a set has a card for.
#[derive(Debug, PartialEq, Eq, Structural, Clone, Copy)]
pub struct SetMissingCardInfo {
    pub dex_id: i32,
}

/// The name of a series or set in the language it is stored for: the
/// English or Japanese name, empty where there is none or for another
/// language.
pub open spec fn name_in(name_en: Option<Seq<char>>, name_ja: Option<Seq<char>>, lang: Seq<char>) -> Seq<char> {
    if lang == "en"@ {
        text_or(name_en, Seq::empty())
    } else if lang == "ja"@ {
        text_or(name_ja, Seq::empty())
    } else {
        Seq::empty()
    }
}

/// A series or set is stored under its English name for `en`, its
/// Japanese name for `ja` (empty where it has none), and with an empty name
/// for any other language.
pub proof fn lemma_name_in_language(name_en: Option<Seq<char>>, name_ja: Option<Seq<char>>, lang: Seq<char>)
    ensures
        lang == "en"@ ==> (name_en matches Some(n) ==> name_in(name_en, name_ja, lang) == n),
        lang == "en"@ ==> (name_en is None ==> name_in(name_en, name_ja, lang).len() == 0),
        lang == "ja"@ ==> (name_ja matches Some(n) ==> name_in(name_en, name_ja, lang) == n),
        lang == "ja"@ ==> (name_ja is None ==> name_in(name_en, name_ja, lang).len() == 0),
        lang != "en"@ && lang != "ja"@ ==> name_in(name_en, name_ja, lang).len() == 0,
{
    reveal_strlit("en");
    reveal_strlit("ja");
    assert("en"@ != "ja"@) by {
        assert("en"@[0] != "ja"@[0]);
    }
}

/// The name of a series or set in the language it is stored for.
pub fn localized_name(name_en: &Option<String>, name_ja: &Option<String>, lang: &str) -> (r: String)
    ensures
        r@ == name_in(name_en.deep_view(), name_ja.deep_view(), lang@),
{
    let chosen = if crate::text::str_eq(lang, "en") {
        name_en
    } else if crate::text::str_eq(lang, "ja") {
        name_ja
    } else {
        return String::new();
    };
    match chosen {
        Some(n) => n.clone(),
        None => String::new(),
    }
}

/// The values written for a series.
#[derive(Debug, PartialEq)]
pub struct SeriesRow {
    pub id: String,
    pub name: String,
    pub logo: Option<String>,
}

/// The row written for a series of the catalogue in language `lang`.
pub fn series_row(series: &SerieData, lang: &str) -> (r: SeriesRow)
    ensures
        r.id@ == dash_joined(lang@, series.id@),
        r.name@ == name_in(series.name_en.deep_view(), series.name_ja.deep_view(), lang@),
        r.logo == series.logo,
{
    SeriesRow {
        id: dash_join(lang, series.id.as_str()),
        name: localized_name(&series.name_en, &series.name_ja, lang),
        logo: copy_opt(&series.logo),
    }
}

/// The values written for a set (its logo and symbol are written empty,
/// and it is written as not finished).
#[derive(Debug, PartialEq)]
pub struct SetRow {
    pub id: String,
    pub name: String,
    pub serie_id: String,
    pub release_date: String,
    pub tcg_online: Option<String>,
    pub total_cards: i32,
}

/// The row written for a set of the catalogue in language `lang`.
pub fn set_row(set: &SetData, lang: &str) -> (r: SetRow)
    ensures
        r.id@ == dash_joined(lang@, set.id@),
        r.name@ == name_in(set.name_en.deep_view(), set.name_ja.deep_view(), lang@),
        r.serie_id@ == dash_joined(lang@, set.serie_id@),
        r.release_date@ == text_or(set.release_date.deep_view(), Seq::empty()),
        r.tcg_online == set.tcg_online,
        r.total_cards == set.total_cards,
{
    SetRow {
        id: dash_join(lang, set.id.as_str()),
        name: localized_name(&set.name_en, &set.name_ja, lang),
        serie_id: dash_join(lang, set.serie_id.as_str()),
        release_date: match &set.release_date {
            Some(d) => d.clone(),
            None => String::new(),
        },
        tcg_online: copy_opt(&set.tcg_online),
        total_cards: set.total_cards,
    }
}

/// The values written for a card.
#[derive(Debug, PartialEq)]
pub struct CardRow {
    pub id: String,
    pub set_id: String,
    pub local_id: String,
    pub name: String,
    pub category: String,
    pub hp: Option<i32>,
    pub types: Option<String>,
    pub dex_id: Option<i32>,
    pub rarity: Option<String>,
    pub image: Option<String>,
    pub stage: Option<String>,
    pub evolves_from: Option<String>,
    pub illustrator: Option<String>,
    pub description: Option<String>,
}

/// The row written for a card of the set `set_id` in language `lang`: its
/// id is `lang-set_id-local_id`, its set's id `lang-set_id`.
pub fn card_row(card: &CardData, set_id: &str, lang: &str) -> (r: CardRow)
    ensures
        r.id@ == dash_joined(dash_joined(lang@, set_id@), card.local_id@),
        r.set_id@ == dash_joined(lang@, set_id@),
        r.local_id == card.local_id,
        r.name == card.name,
        r.category == card.category,
        r.hp == card.hp,
        r.types == card.types,
        r.dex_id == card.dex_id,
        r.rarity == card.rarity,
        r.image == card.image,
        r.stage == card.stage,
        r.evolves_from == card.evolves_from,
        r.illustrator == card.illustrator,
        r.description == card.description,
{
    let full_set_id = dash_join(lang, set_id);
    CardRow {
        id: dash_join(full_set_id.as_str(), card.local_id.as_str()),
        set_id: full_set_id,
        local_id: card.local_id.clone(),
        name: card.name.clone(),
        category: card.category.clone(),
        hp: card.hp,
        types: copy_opt(&card.types),
        dex_id: card.dex_id,
        rarity: copy_opt(&card.rarity),
        image: copy_opt(&card.image),
        stage: copy_opt(&card.stage),
        evolves_from: copy_opt(&card.evolves_from),
        illustrator: copy_opt(&card.illustrator),
        description: copy_opt(&card.description),
    }
}

/// A card's stored id begins with the id its set is stored under: the
/// `id` of `card_row` starts with its `set_id`, then a dash.
pub proof fn lemma_card_id_extends_set_id(set_id: Seq<char>, local_id: Seq<char>, lang: Seq<char>)
    ensures
        dash_joined(dash_joined(lang, set_id), local_id).take(dash_joined(lang, set_id).len() as int)
            == dash_joined(lang, set_id),
        dash_joined(dash_joined(lang, set_id), local_id)[dash_joined(lang, set_id).len() as int] == '-',
{
    assert(dash_joined(dash_joined(lang, set_id), local_id).take(dash_joined(lang, set_id).len() as int)
        =~= dash_joined(lang, set_id));
}

/// The query counting, per set, the uncollected Pokédex numbers it has
/// cards for, before its filter and ordering.
pub open spec fn missing_stats_base() -> Seq<char> {
    "\n            SELECT\n                cards.set_id,\n                sets.name as set_name,\n                COUNT(DISTINCT cards.dex_id) as missing\n            FROM cards\n            LEFT JOIN collected_pokemon cp ON cards.dex_id = cp.dex_id\n            INNER JOIN sets ON cards.set_id = sets.id\n            WHERE cp.dex_id IS NULL AND cards.dex_id IS NOT NULL\n        "@
}

/// The query for the missing counts per set, fewest first, and the
/// pattern it is bound to: with a language, only the sets whose ids begin
/// with `lang-`.
pub fn missing_stats_query(lang: Option<&str>) -> (r: (String, Option<String>))
    ensures
        match lang {
            Some(l) => {
                &&& r.0@ == missing_stats_base()
                    + " AND cards.set_id LIKE ? GROUP BY cards.set_id, sets.name ORDER BY missing ASC"@
                &&& r.1 matches Some(p) && p@ == l@ + "-%"@
            },
            None => {
                &&& r.0@ == missing_stats_base() + " GROUP BY cards.set_id, sets.name ORDER BY missing ASC"@
                &&& r.1 is None
            },
        },
{
    let base = "\n            SELECT\n                cards.set_id,\n                sets.name as set_name,\n                COUNT(DISTINCT cards.dex_id) as missing\n            FROM cards\n            LEFT JOIN collected_pokemon cp ON cards.dex_id = cp.dex_id\n            INNER JOIN sets ON cards.set_id = sets.id\n            WHERE cp.dex_id IS NULL AND cards.dex_id IS NOT NULL\n        ";
    match lang {
        Some(l) => (
            concat(base, " AND cards.set_id LIKE ? GROUP BY cards.set_id, sets.name ORDER BY missing ASC"),
            Some(concat(l, "-%")),
        ),
        None => (concat(base, " GROUP BY cards.set_id, sets.name ORDER BY missing ASC"), None),
    }
}

/// `n` placeholders separated by commas: `?,?,?`.
pub open spec fn placeholders(n: nat) -> Seq<char>
    decreases n,
{
    if n == 0 {
        Seq::empty()
    } else if n == 1 {
        seq!['?']
    } else {
        placeholders((n - 1) as nat) + seq![',', '?']
    }
}

/// The query for which of `n` Pokédex numbers appear on stored cards.
pub fn existing_dex_ids_query(n: usize) -> (r: String)
    ensures
        r@ == "SELECT DISTINCT dex_id FROM cards WHERE dex_id IN ("@ + placeholders(n as nat) + ")"@,
{
    let mut r = String::from_str("SELECT DISTINCT dex_id FROM cards WHERE dex_id IN (");
    let ghost prefix = r@;
    let mut i: usize = 0;
    while i < n
        invariant
            i <= n,
            r@ == prefix + placeholders(i as nat),
        decreases n - i,
    {
        if i > 0 {
            crate::text::push_char(&mut r, ',');
        }
        crate::text::push_char(&mut r, '?');
        proof {
            if i == 0 {
                assert(placeholders(0) =~= Seq::<char>::empty());
            }
        }
        assert(r@ =~= prefix + placeholders((i + 1) as nat));
        i = i + 1;
    }
    r.append(")");
    r
}

/// The most Pokédex numbers asked about in one query.
pub const DEX_ID_CHUNK: usize = 500;

/// The sequences a vector of vectors holds.
pub open spec fn chunk_views(chunks: Seq<Vec<i32>>) -> Seq<Seq<i32>> {
    chunks.map_values(|c: Vec<i32>| c@)
}

/// `ids` cut, in order, into runs of 500 (the last may be shorter).
pub fn dex_id_chunks(ids: &Vec<i32>) -> (r: Vec<Vec<i32>>)
    ensures
        chunk_views(r@).flatten() == ids@,
        forall|k: int| 0 <= k < r@.len() ==> 1 <= #[trigger] r@[k]@.len() <= 500,
        forall|k: int| 0 <= k < r@.len() - 1 ==> #[trigger] r@[k]@.len() == 500,
{
    let mut r: Vec<Vec<i32>> = Vec::new();
    let mut start: usize = 0;
    let n = ids.len();
    while start < n
        invariant
            n == ids@.len(),
            start <= n,
            chunk_views(r@).flatten() == ids@.take(start as int),
            forall|k: int| 0 <= k < r@.len() ==> 1 <= #[trigger] r@[k]@.len() <= 500,
            forall|k: int| 0 <= k < r@.len() ==> #[trigger] r@[k]@.len() == 500 || (k == r@.len() - 1 && start == n),
        decreases n - start,
    {
        let end: usize = if n - start > DEX_ID_CHUNK {
            start + DEX_ID_CHUNK
        } else {
            n
        };
        let mut chunk: Vec<i32> = Vec::new();
        let mut i: usize = start;
        while i < end
            invariant
                n == ids@.len(),
                start <= i <= end <= n,
                chunk@ == ids@.subrange(start as int, i as int),
            decreases end - i,
        {
            chunk.push(ids[i]);
            assert(chunk@ =~= ids@.subrange(start as int, i + 1));
            i = i + 1;
        }
        let ghost before = r@;
        r.push(chunk);
        proof {
            assert(chunk_views(r@) =~= chunk_views(before).push(ids@.subrange(start as int, end as int)));
            chunk_views(before).lemma_flatten_push(ids@.subrange(start as int, end as int));
            assert(ids@.take(start as int) + ids@.subrange(start as int, end as int) =~= ids@.take(end as int));
            assert forall|k: int| 0 <= k < r@.len() implies #[trigger] r@[k]@.len() == 500 || (k == r@.len() - 1 && end == n) by {
                if k < before.len() {
                    assert(r@[k] == before[k]);
                }
            }
            assert forall|k: int| 0 <= k < r@.len() implies 1 <= #[trigger] r@[k]@.len() <= 500 by {
                if k < before.len() {
                    assert(r@[k] == before[k]);
                }
            }
        }
        start = end;
    }
    assert(ids@.take(n as int) =~= ids@);
    r
}

} // verus!
