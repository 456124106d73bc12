//! The collection view: the cards and sets the GUI lists, how they are
//! filtered and sorted, and how marking cards collected changes them.

use vstd::prelude::*;

use crate::cards_database::{
    catalog_consistent, CardView, CardsDatabase, CatalogView, DatabaseError, SerieView, SetData, SetView,
};
use crate::db::{Card, CardSetInfo, DbSet, PokedexCompletion, SetMissingStats};
use crate::text::{decimal_text, starts_with, u64_to_text};
use crate::text::{
    lemma_text_before_asymmetric, lemma_text_before_total, lemma_text_before_transitive, str_before,
    str_eq, text_before,
};

verus! {

/// A Pokémon of the collection view: its Pokédex number and name, whether
/// it is collected, and the cards that show it.
#[derive(Debug, PartialEq)]
pub struct CardModel {
    pub dex_id: i32,
    pub name: String,
    pub is_collected: bool,
    pub sets: Vec<CardSetInfo>,
}

/// A set of the collection view.
#[derive(Debug, PartialEq)]
pub struct SetModel {
    pub id: String,
    pub name: String,
    pub release_date: String,
    pub missing_count: i64,
    pub language: String,
}

/// A set with the Pokémon it still lacks.
#[derive(Debug, PartialEq)]
pub struct SetDetailModel {
    pub set: SetModel,
    pub missing_cards: Vec<CardModel>,
}

/// Everything the collection view shows.
#[derive(Debug, PartialEq)]
pub struct AppState {
    pub current_view: String,
    pub cards: Vec<CardModel>,
    pub sets: Vec<SetModel>,
    pub set_details: Option<SetDetailModel>,
    pub filter: String,
    pub sort_by: String,
    pub sort_direction: String,
    pub completion: PokedexCompletion,
}

/// Per-platform options of the GUI.
#[derive(Debug, PartialEq, Eq, Structural, Clone, Copy)]
pub struct UiOptions {
    /// Whether the "Update Database" button is shown (it needs the
    /// catalogue files, which only the desktop has).
    pub show_update_button: bool,
    /// Whether the top bar is shown in its compact form, for narrow screens.
    pub compact_top_bar: bool,
}

/// How the cards can be sorted: by Pokédex number or by name, ascending or
/// descending.
#[derive(Debug, PartialEq, Eq, Structural, Clone, Copy)]
pub struct CardOrder {
    pub by_name: bool,
    pub descending: bool,
}

/// The order a sort key and direction ask for: `number` or `name`, `asc`
/// or anything else for descending; `None` for an unknown key, which
/// leaves the cards as they are.
pub open spec fn order_of(sort_by: Seq<char>, direction: Seq<char>) -> Option<CardOrder> {
    if sort_by == "number"@ {
        Some(CardOrder { by_name: false, descending: direction != "asc"@ })
    } else if sort_by == "name"@ {
        Some(CardOrder { by_name: true, descending: direction != "asc"@ })
    } else {
        None
    }
}

/// `a` comes strictly after `b` in the order: the comparison that a sort
/// moves an element past another on.
pub open spec fn comes_after(a: CardModel, b: CardModel, order: CardOrder) -> bool {
    if order.by_name {
        if order.descending {
            text_before(a.name@, b.name@)
        } else {
            text_before(b.name@, a.name@)
        }
    } else {
        if order.descending {
            a.dex_id < b.dex_id
        } else {
            a.dex_id > b.dex_id
        }
    }
}

/// `x` placed into `s` after every element that does not come after it:
/// one step of a stable insertion sort.
pub open spec fn insert_in_order(s: Seq<CardModel>, x: CardModel, order: CardOrder) -> Seq<CardModel>
    decreases s.len(),
{
    if s.len() > 0 && comes_after(s.last(), x, order) {
        insert_in_order(s.drop_last(), x, order).push(s.last())
    } else {
        s.push(x)
    }
}

/// `s` sorted stably in the order: what `sort_by` gives with the order's
/// comparison.
pub open spec fn sorted_in_order(s: Seq<CardModel>, order: CardOrder) -> Seq<CardModel>
    decreases s.len(),
{
    if s.len() == 0 {
        s
    } else {
        insert_in_order(sorted_in_order(s.drop_last(), order), s.last(), order)
    }
}

/// Whether `a` comes strictly after `b` in the order.
fn card_comes_after(a: &CardModel, b: &CardModel, order: CardOrder) -> (r: bool)
    ensures
        r == comes_after(*a, *b, order),
{
    if order.by_name {
        if order.descending {
            str_before(a.name.as_str(), b.name.as_str())
        } else {
            str_before(b.name.as_str(), a.name.as_str())
        }
    } else {
        if order.descending {
            a.dex_id < b.dex_id
        } else {
            a.dex_id > b.dex_id
        }
    }
}

/// Inserting after the last element that does not come after `x`, where
/// all later ones do, is `insert_in_order`.
proof fn lemma_insert_in_order(s: Seq<CardModel>, x: CardModel, order: CardOrder, j: int)
    requires
        0 <= j <= s.len(),
        forall|k: int| j <= k < s.len() ==> comes_after(#[trigger] s[k], x, order),
        j > 0 ==> !comes_after(s[j - 1], x, order),
    ensures
        insert_in_order(s, x, order) == s.insert(j, x),
    decreases s.len(),
{
    if j == s.len() {
        assert(s.push(x) =~= s.insert(j, x));
    } else {
        let init = s.drop_last();
        assert(comes_after(s[s.len() - 1], x, order));
        assert forall|k: int| j <= k < init.len() implies comes_after(#[trigger] init[k], x, order) by {
            assert(init[k] == s[k]);
        }
        if j > 0 {
            assert(init[j - 1] == s[j - 1]);
        }
        lemma_insert_in_order(init, x, order, j);
        assert(init.insert(j, x).push(s.last()) =~= s.insert(j, x));
    }
}

/// `cards` sorted stably in the order.
pub fn sort_cards_in_order(cards: Vec<CardModel>, order: CardOrder) -> (r: Vec<CardModel>)
    ensures
        r@ == sorted_in_order(cards@, order),
{
    let mut rest = cards;
    let ghost input = rest@;
    let mut sorted: Vec<CardModel> = Vec::new();
    let mut i: usize = 0;
    let n = rest.len();
    while rest.len() > 0
        invariant
            n == input.len(),
            i + rest@.len() == n,
            rest@ == input.skip(i as int),
            sorted@ == sorted_in_order(input.take(i as int), order),
        decreases rest@.len(),
    {
        let x = rest.remove(0);
        assert(x == input[i as int]);
        let mut j: usize = sorted.len();
        while j > 0 && card_comes_after(&sorted[j - 1], &x, order)
            invariant
                j <= sorted@.len(),
                forall|k: int| j <= k < sorted@.len() ==> comes_after(#[trigger] sorted@[k], x, order),
            decreases j,
        {
            j = j - 1;
        }
        proof {
            lemma_insert_in_order(sorted@, x, order, j as int);
            let t = input.take(i + 1);
            assert(t.drop_last() =~= input.take(i as int));
            assert(t.last() == x);
            assert(rest@ =~= input.skip(i + 1));
        }
        sorted.insert(j, x);
        i = i + 1;
    }
    assert(input.take(n as int) =~= input);
    sorted
}

/// A card never comes after one that comes after it.
proof fn lemma_comes_after_asymmetric(a: CardModel, b: CardModel, order: CardOrder)
    ensures
        comes_after(a, b, order) ==> !comes_after(b, a, order),
{
    lemma_text_before_asymmetric(a.name@, b.name@);
    lemma_text_before_asymmetric(b.name@, a.name@);
}

/// Not coming after is transitive.
proof fn lemma_not_after_transitive(a: CardModel, b: CardModel, c: CardModel, order: CardOrder)
    ensures
        !comes_after(a, b, order) && !comes_after(b, c, order) ==> !comes_after(a, c, order),
{
    let (x, y, z) = (a.name@, b.name@, c.name@);
    lemma_text_before_total(x, y);
    lemma_text_before_total(y, z);
    lemma_text_before_total(x, z);
    lemma_text_before_transitive(x, y, z);
    lemma_text_before_transitive(z, y, x);
    lemma_text_before_transitive(y, x, z);
    lemma_text_before_transitive(z, x, y);
    lemma_text_before_transitive(x, z, y);
    lemma_text_before_transitive(y, z, x);
}

/// The cards are in order: none comes after a card that follows it.
pub open spec fn in_order(s: Seq<CardModel>, order: CardOrder) -> bool {
    forall|i: int, j: int| 0 <= i < j < s.len() ==> !comes_after(#[trigger] s[i], #[trigger] s[j], order)
}

/// What holds of `x` and of every element of `s` holds of every element
/// of `insert_in_order(s, x)`.
proof fn lemma_insert_in_order_elements(
    s: Seq<CardModel>,
    x: CardModel,
    order: CardOrder,
    p: spec_fn(CardModel) -> bool,
)
    requires
        p(x),
        forall|i: int| 0 <= i < s.len() ==> p(#[trigger] s[i]),
    ensures
        forall|k: int|
            0 <= k < insert_in_order(s, x, order).len() ==> p(#[trigger] insert_in_order(s, x, order)[k]),
        insert_in_order(s, x, order).len() == s.len() + 1,
    decreases s.len(),
{
    if s.len() > 0 && comes_after(s.last(), x, order) {
        let init = s.drop_last();
        assert forall|i: int| 0 <= i < init.len() implies p(#[trigger] init[i]) by {
            assert(init[i] == s[i]);
        }
        lemma_insert_in_order_elements(init, x, order, p);
        let r = insert_in_order(s, x, order);
        assert forall|k: int| 0 <= k < r.len() implies p(#[trigger] r[k]) by {
            if k < r.len() - 1 {
                assert(r[k] == insert_in_order(init, x, order)[k]);
            } else {
                assert(r[k] == s[s.len() - 1]);
            }
        }
    } else {
        let r = s.push(x);
        assert forall|k: int| 0 <= k < r.len() implies p(#[trigger] r[k]) by {
            if k < s.len() {
                assert(r[k] == s[k]);
            }
        }
    }
}

/// Inserting in order into cards in order keeps them in order.
proof fn lemma_insert_in_order_sorted(s: Seq<CardModel>, x: CardModel, order: CardOrder)
    requires
        in_order(s, order),
    ensures
        in_order(insert_in_order(s, x, order), order),
    decreases s.len(),
{
    if s.len() > 0 && comes_after(s.last(), x, order) {
        let init = s.drop_last();
        let last = s.last();
        assert(in_order(init, order)) by {
            assert forall|i: int, j: int| 0 <= i < j < init.len() implies !comes_after(
                #[trigger] init[i],
                #[trigger] init[j],
                order,
            ) by {
                assert(init[i] == s[i] && init[j] == s[j]);
            }
        }
        lemma_insert_in_order_sorted(init, x, order);
        lemma_comes_after_asymmetric(last, x, order);
        let p = |e: CardModel| !comes_after(e, last, order);
        assert forall|i: int| 0 <= i < init.len() implies p(#[trigger] init[i]) by {
            assert(init[i] == s[i]);
            assert(s[s.len() - 1] == last);
        }
        lemma_insert_in_order_elements(init, x, order, p);
        let m = insert_in_order(init, x, order);
        let r = m.push(last);
        assert forall|i: int, j: int| 0 <= i < j < r.len() implies !comes_after(
            #[trigger] r[i],
            #[trigger] r[j],
            order,
        ) by {
            if j < r.len() - 1 {
                assert(r[i] == m[i] && r[j] == m[j]);
            } else {
                assert(r[i] == m[i] && r[j] == last);
                assert(p(m[i]));
            }
        }
    } else {
        let r = s.push(x);
        assert forall|i: int, j: int| 0 <= i < j < r.len() implies !comes_after(
            #[trigger] r[i],
            #[trigger] r[j],
            order,
        ) by {
            if j < s.len() {
                assert(r[i] == s[i] && r[j] == s[j]);
            } else {
                assert(r[i] == s[i] && r[j] == x);
                if i < s.len() - 1 {
                    assert(!comes_after(s[i], s[s.len() - 1], order));
                    lemma_not_after_transitive(s[i], s[s.len() - 1], x, order);
                }
            }
        }
    }
}

/// Sorting puts the cards in order: no card of the result comes after a
/// card that follows it.
pub proof fn lemma_sort_orders_cards(s: Seq<CardModel>, order: CardOrder)
    ensures
        in_order(sorted_in_order(s, order), order),
    decreases s.len(),
{
    if s.len() > 0 {
        lemma_sort_orders_cards(s.drop_last(), order);
        lemma_insert_in_order_sorted(sorted_in_order(s.drop_last(), order), s.last(), order);
    }
}

/// Sorting by a key and direction: by `number` ascending the Pokédex
/// numbers never decrease, descending they never increase; by `name`
/// ascending no name comes after (in Rust's string order) a name that
/// follows it, descending no name comes before one that follows it; any
/// other key leaves the cards as they are.
pub proof fn lemma_sort_key_and_direction(s: Seq<CardModel>, sort_by: Seq<char>, direction: Seq<char>)
    ensures
        (sort_by == "number"@ || sort_by == "name"@) <==> order_of(sort_by, direction) is Some,
        order_of(sort_by, direction) matches Some(order) ==> ({
            let r = sorted_in_order(s, order);
            &&& r.to_multiset() == s.to_multiset()
            &&& forall|i: int, j: int|
                0 <= i < j < r.len() ==> {
                    &&& (sort_by == "number"@ && direction == "asc"@ ==> #[trigger] r[i].dex_id <= #[trigger] r[j].dex_id)
                    &&& (sort_by == "number"@ && direction != "asc"@ ==> r[i].dex_id >= r[j].dex_id)
                    &&& (sort_by == "name"@ && direction == "asc"@ ==> !text_before(r[j].name@, r[i].name@))
                    &&& (sort_by == "name"@ && direction != "asc"@ ==> !text_before(r[i].name@, r[j].name@))
                }
        }),
{
    reveal_strlit("number");
    reveal_strlit("name");
    assert("number"@ != "name"@) by {
        assert("number"@.len() != "name"@.len());
    }
    if let Some(order) = order_of(sort_by, direction) {
        lemma_sort_orders_cards(s, order);
        lemma_sort_keeps_cards(s, order);
    }
}

/// Inserting adds the card once.
proof fn lemma_insert_in_order_multiset(s: Seq<CardModel>, x: CardModel, order: CardOrder)
    ensures
        insert_in_order(s, x, order).to_multiset() == s.to_multiset().insert(x),
    decreases s.len(),
{
    broadcast use vstd::seq_lib::to_multiset_build;

    if s.len() > 0 && comes_after(s.last(), x, order) {
        let init = s.drop_last();
        lemma_insert_in_order_multiset(init, x, order);
        assert(s =~= init.push(s.last()));
        assert(insert_in_order(s, x, order).to_multiset() =~= s.to_multiset().insert(x));
    }
}

/// Sorting keeps the cards: the result holds the same cards, each as
/// often as before.
pub proof fn lemma_sort_keeps_cards(s: Seq<CardModel>, order: CardOrder)
    ensures
        sorted_in_order(s, order).to_multiset() == s.to_multiset(),
    decreases s.len(),
{
    broadcast use vstd::seq_lib::to_multiset_build;

    if s.len() > 0 {
        lemma_sort_keeps_cards(s.drop_last(), order);
        lemma_insert_in_order_multiset(sorted_in_order(s.drop_last(), order), s.last(), order);
        assert(s =~= s.drop_last().push(s.last()));
    }
}

/// `a` and `b` tie in the order: equal numbers, or equal names when
/// sorting by name.
pub open spec fn same_key(a: CardModel, b: CardModel, order: CardOrder) -> bool {
    if order.by_name {
        a.name@ == b.name@
    } else {
        a.dex_id == b.dex_id
    }
}

/// The cards that tie with `y` in the order.
pub open spec fn ties_with(y: CardModel, order: CardOrder) -> spec_fn(CardModel) -> bool {
    |c: CardModel| same_key(c, y, order)
}

/// Inserting `x` keeps the cards that tie with `y` in their order, `x`
/// coming last among them when it ties too.
proof fn lemma_insert_in_order_ties(s: Seq<CardModel>, x: CardModel, order: CardOrder, y: CardModel)
    ensures
        insert_in_order(s, x, order).filter(ties_with(y, order)) == (if same_key(x, y, order) {
            s.filter(ties_with(y, order)).push(x)
        } else {
            s.filter(ties_with(y, order))
        }),
    decreases s.len(),
{
    reveal_with_fuel(Seq::<_>::filter, 1);
    let p = ties_with(y, order);
    if s.len() > 0 && comes_after(s.last(), x, order) {
        let init = s.drop_last();
        let last = s.last();
        lemma_insert_in_order_ties(init, x, order, y);
        let m = insert_in_order(init, x, order);
        assert(m.push(last).drop_last() =~= m);
        assert(s.filter(p) == (if p(last) {
            init.filter(p).push(last)
        } else {
            init.filter(p)
        }));
        if same_key(x, y, order) {
            lemma_text_before_asymmetric(x.name@, x.name@);
            assert(!p(last));
        }
    } else {
        assert(s.push(x).drop_last() =~= s);
    }
}

/// Sorting is stable: the cards that tie with any card `y` come out in
/// the order they went in.
pub proof fn lemma_sort_is_stable(s: Seq<CardModel>, order: CardOrder, y: CardModel)
    ensures
        sorted_in_order(s, order).filter(ties_with(y, order)) == s.filter(ties_with(y, order)),
    decreases s.len(),
{
    reveal_with_fuel(Seq::<_>::filter, 1);
    if s.len() > 0 {
        lemma_sort_is_stable(s.drop_last(), order, y);
        lemma_insert_in_order_ties(sorted_in_order(s.drop_last(), order), s.last(), order, y);
    }
}

/// The cards a filter keeps: `collected` keeps the collected ones,
/// `missing` the others, any other filter keeps them all.
pub open spec fn filtered(cards: Seq<CardModel>, filter: Seq<char>) -> Seq<CardModel> {
    if filter == "collected"@ {
        cards.filter(|c: CardModel| c.is_collected)
    } else if filter == "missing"@ {
        cards.filter(|c: CardModel| !c.is_collected)
    } else {
        cards
    }
}

/// The cards whose collected flag is `collected`, in order.
fn keep_cards(cards: Vec<CardModel>, collected: bool) -> (r: Vec<CardModel>)
    ensures
        r@ == cards@.filter(|c: CardModel| c.is_collected == collected),
{
    let ghost pred = |c: CardModel| c.is_collected == collected;
    let mut rest = cards;
    let ghost input = rest@;
    let mut kept: Vec<CardModel> = Vec::new();
    let mut i: usize = 0;
    let n = rest.len();
    while rest.len() > 0
        invariant
            n == input.len(),
            i + rest@.len() == n,
            rest@ == input.skip(i as int),
            kept@ == input.take(i as int).filter(pred),
            pred == (|c: CardModel| c.is_collected == collected),
        decreases rest@.len(),
    {
        reveal_with_fuel(Seq::<_>::filter, 1);
        let x = rest.remove(0);
        assert(x == input[i as int]);
        assert(input.take(i + 1).drop_last() =~= input.take(i as int));
        assert(rest@ =~= input.skip(i + 1));
        assert(input.take(i + 1).last() == x);
        assert(pred(x) == (x.is_collected == collected));
        let ghost before = kept@;
        if x.is_collected == collected {
            kept.push(x);
            assert(kept@ =~= before.push(x));
        }
        assert(kept@ == input.take(i + 1).filter(pred));
        i = i + 1;
    }
    assert(input.take(n as int) =~= input);
    kept
}

/// `s` has a card for the Pokédex number `dex_id`.
pub open spec fn has_dex(s: Seq<CardModel>, dex_id: i32) -> bool {
    exists|i: int| 0 <= i < s.len() && #[trigger] s[i].dex_id == dex_id
}

/// `i` is the position of the first card for the Pokédex number `dex_id`.
pub open spec fn first_with_dex(s: Seq<CardModel>, dex_id: i32, i: int) -> bool {
    &&& 0 <= i < s.len()
    &&& s[i].dex_id == dex_id
    &&& forall|k: int| 0 <= k < i ==> #[trigger] s[k].dex_id != dex_id
}

/// The card with its collected flag set to `collected`.
pub open spec fn with_collected(c: CardModel, collected: bool) -> CardModel {
    CardModel { dex_id: c.dex_id, name: c.name, is_collected: collected, sets: c.sets }
}

/// The two states differ at most in their cards.
pub open spec fn same_but_cards(a: AppState, b: AppState) -> bool {
    &&& a.current_view == b.current_view
    &&& a.sets == b.sets
    &&& a.set_details == b.set_details
    &&& a.filter == b.filter
    &&& a.sort_by == b.sort_by
    &&& a.sort_direction == b.sort_direction
    &&& a.completion == b.completion
}

/// Position of the first card for `dex_id`, if any.
fn find_dex(cards: &Vec<CardModel>, dex_id: i32) -> (r: Option<usize>)
    ensures
        match r {
            Some(i) => first_with_dex(cards@, dex_id, i as int),
            None => !has_dex(cards@, dex_id),
        },
{
    let mut i: usize = 0;
    while i < cards.len()
        invariant
            i <= cards@.len(),
            forall|k: int| 0 <= k < i ==> #[trigger] cards@[k].dex_id != dex_id,
        decreases cards@.len() - i,
    {
        if cards[i].dex_id == dex_id {
            return Some(i);
        }
        i = i + 1;
    }
    None
}

impl AppState {
    /// The state the collection view starts in: the cards view, all cards,
    /// by number, ascending, nothing collected yet.
    pub fn initial() -> (r: AppState)
        ensures
            r.current_view@ == "cards"@,
            r.cards@.len() == 0,
            r.sets@.len() == 0,
            r.set_details is None,
            r.filter@ == "all"@,
            r.sort_by@ == "number"@,
            r.sort_direction@ == "asc"@,
            r.completion == (PokedexCompletion { collected: 0, total: 0 }),
    {
        AppState {
            current_view: String::from_str("cards"),
            cards: Vec::new(),
            sets: Vec::new(),
            set_details: None,
            filter: String::from_str("all"),
            sort_by: String::from_str("number"),
            sort_direction: String::from_str("asc"),
            completion: PokedexCompletion { collected: 0, total: 0 },
        }
    }

    /// Records the filter and drops the cards it does not keep.
    pub fn filter_cards(&mut self, filter: &str)
        ensures
            final(self).filter@ == filter@,
            final(self).cards@ == filtered(old(self).cards@, filter@),
            final(self).current_view == old(self).current_view,
            final(self).sets == old(self).sets,
            final(self).set_details == old(self).set_details,
            final(self).sort_by == old(self).sort_by,
            final(self).sort_direction == old(self).sort_direction,
            final(self).completion == old(self).completion,
    {
        self.filter = String::from_str(filter);
        self.apply_filters();
    }

    /// Drops the cards that the recorded filter does not keep.
    fn apply_filters(&mut self)
        ensures
            final(self).cards@ == filtered(old(self).cards@, old(self).filter@),
            same_but_cards(*final(self), *old(self)),
    {
        let mut cards: Vec<CardModel> = Vec::new();
        std::mem::swap(&mut cards, &mut self.cards);
        if str_eq(self.filter.as_str(), "collected") {
            self.cards = keep_cards(cards, true);
            assert(self.cards@ =~= filtered(old(self).cards@, old(self).filter@)) by {
                assert((|c: CardModel| c.is_collected == true) =~= (|c: CardModel| c.is_collected));
            }
        } else if str_eq(self.filter.as_str(), "missing") {
            self.cards = keep_cards(cards, false);
            assert(self.cards@ =~= filtered(old(self).cards@, old(self).filter@)) by {
                assert((|c: CardModel| c.is_collected == false) =~= (|c: CardModel| !c.is_collected));
            }
        } else {
            self.cards = cards;
        }
    }

    /// Records the sort key and direction and sorts the cards by them.
    pub fn sort_cards(&mut self, sort_by: &str, direction: &str)
        ensures
            final(self).sort_by@ == sort_by@,
            final(self).sort_direction@ == direction@,
            final(self).cards@ == match order_of(sort_by@, direction@) {
                Some(order) => sorted_in_order(old(self).cards@, order),
                None => old(self).cards@,
            },
            final(self).current_view == old(self).current_view,
            final(self).sets == old(self).sets,
            final(self).set_details == old(self).set_details,
            final(self).filter == old(self).filter,
            final(self).completion == old(self).completion,
    {
        self.sort_by = String::from_str(sort_by);
        self.sort_direction = String::from_str(direction);
        self.apply_sorting();
    }

    /// Sorts the cards by the recorded key and direction (stably: cards
    /// that tie keep their order).
    fn apply_sorting(&mut self)
        ensures
            final(self).cards@ == match order_of(old(self).sort_by@, old(self).sort_direction@) {
                Some(order) => sorted_in_order(old(self).cards@, order),
                None => old(self).cards@,
            },
            same_but_cards(*final(self), *old(self)),
    {
        let by_name = if str_eq(self.sort_by.as_str(), "number") {
            false
        } else if str_eq(self.sort_by.as_str(), "name") {
            true
        } else {
            return;
        };
        let order = CardOrder { by_name, descending: !str_eq(self.sort_direction.as_str(), "asc") };
        let mut cards: Vec<CardModel> = Vec::new();
        std::mem::swap(&mut cards, &mut self.cards);
        self.cards = sort_cards_in_order(cards, order);
    }

    /// Flips whether the first card for `dex_id` is collected, giving its
    /// new flag; `None` (and nothing changed) where no card has that number.
    pub fn toggle_card(&mut self, dex_id: i32) -> (r: Option<bool>)
        ensures
            same_but_cards(*final(self), *old(self)),
            match r {
                None => !has_dex(old(self).cards@, dex_id) && final(self).cards@ == old(self).cards@,
                Some(collected) => exists|i: int|
                    first_with_dex(old(self).cards@, dex_id, i) && collected == !old(self).cards@[i].is_collected
                        && final(self).cards@ == old(self).cards@.update(
                        i,
                        with_collected(old(self).cards@[i], collected),
                    ),
            },
    {
        match find_dex(&self.cards, dex_id) {
            None => None,
            Some(i) => {
                let mut card = self.cards.remove(i);
                let collected = !card.is_collected;
                card.is_collected = collected;
                self.cards.insert(i, card);
                assert(self.cards@ =~= old(self).cards@.update(i as int, with_collected(old(self).cards@[i as int], collected)));
                Some(collected)
            },
        }
    }

    /// Marks the first card for `dex_id` collected, if there is one.
    pub fn mark_collected(&mut self, dex_id: i32)
        ensures
            same_but_cards(*final(self), *old(self)),
            !has_dex(old(self).cards@, dex_id) ==> final(self).cards@ == old(self).cards@,
            has_dex(old(self).cards@, dex_id) ==> exists|i: int|
                first_with_dex(old(self).cards@, dex_id, i) && final(self).cards@ == old(self).cards@.update(
                    i,
                    with_collected(old(self).cards@[i], true),
                ),
    {
        match find_dex(&self.cards, dex_id) {
            None => {},
            Some(i) => {
                let mut card = self.cards.remove(i);
                card.is_collected = true;
                self.cards.insert(i, card);
                assert(self.cards@ =~= old(self).cards@.update(i as int, with_collected(old(self).cards@[i as int], true)));
            },
        }
    }
}

/// The Pokédex number a stored card stands for in the view (0 where it
/// has none).
pub open spec fn view_dex(card: Card) -> i32 {
    match card.dex_id {
        Some(d) => d,
        None => 0,
    }
}

/// The view of a stored card: collected unless its number is among the
/// missing ones; `sets` are the cards that show its number.
pub fn card_model(card: &Card, missing: &Vec<i32>, sets: Vec<CardSetInfo>) -> (r: CardModel)
    ensures
        r.dex_id == view_dex(*card),
        r.name == card.name,
        r.is_collected == !missing@.contains(view_dex(*card)),
        r.sets == sets,
{
    let dex_id = match card.dex_id {
        Some(d) => d,
        None => 0,
    };
    let mut found = false;
    let mut i: usize = 0;
    while i < missing.len()
        invariant
            i <= missing@.len(),
            found <==> exists|k: int| 0 <= k < i && missing@[k] == dex_id,
        decreases missing@.len() - i,
    {
        if missing[i] == dex_id {
            found = true;
        }
        i = i + 1;
    }
    CardModel { dex_id, name: card.name.clone(), is_collected: !found, sets }
}

/// The missing count of the set `set_id`: that of the first statistics
/// line for it, 0 where there is none.
pub open spec fn missing_count_for(stats: Seq<SetMissingStats>, set_id: Seq<char>) -> i64
    decreases stats.len(),
{
    if stats.len() == 0 {
        0
    } else if stats[0].set_id@ == set_id {
        stats[0].missing
    } else {
        missing_count_for(stats.drop_first(), set_id)
    }
}

/// The language a set id names: English for ids that begin with `en-`,
/// Japanese for any other.
pub open spec fn language_of(set_id: Seq<char>) -> Seq<char> {
    if 3 <= set_id.len() && set_id.take(3) == "en-"@ {
        "English"@
    } else {
        "Japanese"@
    }
}

/// A set is English exactly when its id begins with the three characters
/// `e`, `n`, `-`; every other set is Japanese.
pub proof fn lemma_language_of_set(set_id: Seq<char>)
    ensures
        (set_id.len() >= 3 && set_id[0] == 'e' && set_id[1] == 'n' && set_id[2] == '-') ==> language_of(set_id)
            == "English"@,
        !(set_id.len() >= 3 && set_id[0] == 'e' && set_id[1] == 'n' && set_id[2] == '-') ==> language_of(set_id)
            == "Japanese"@,
{
    reveal_strlit("en-");
    if set_id.len() >= 3 && set_id[0] == 'e' && set_id[1] == 'n' && set_id[2] == '-' {
        assert(set_id.take(3) =~= "en-"@);
    } else if set_id.len() >= 3 && set_id.take(3) == "en-"@ {
        assert(set_id[0] == set_id.take(3)[0] && set_id[1] == set_id.take(3)[1] && set_id[2] == set_id.take(3)[2]);
    }
}

/// The missing count of a set is that of the first statistics line for
/// it, and 0 where no line is for it.
pub proof fn lemma_missing_count_first_line(stats: Seq<SetMissingStats>, set_id: Seq<char>, i: int)
    ensures
        (forall|k: int| 0 <= k < stats.len() ==> #[trigger] stats[k].set_id@ != set_id) ==> missing_count_for(
            stats,
            set_id,
        ) == 0,
        (0 <= i < stats.len() && stats[i].set_id@ == set_id && forall|k: int|
            0 <= k < i ==> #[trigger] stats[k].set_id@ != set_id) ==> missing_count_for(stats, set_id)
            == stats[i].missing,
    decreases stats.len(),
{
    if stats.len() > 0 {
        let rest = stats.drop_first();
        lemma_missing_count_first_line(rest, set_id, i - 1);
        if forall|k: int| 0 <= k < stats.len() ==> #[trigger] stats[k].set_id@ != set_id {
            assert(stats[0].set_id@ != set_id);
            assert forall|k: int| 0 <= k < rest.len() implies #[trigger] rest[k].set_id@ != set_id by {
                assert(rest[k] == stats[k + 1]);
            }
        }
        if 0 < i < stats.len() && stats[i].set_id@ == set_id && forall|k: int|
            0 <= k < i ==> #[trigger] stats[k].set_id@ != set_id {
            assert(stats[0].set_id@ != set_id);
            assert(rest[i - 1] == stats[i]);
            assert forall|k: int| 0 <= k < i - 1 implies #[trigger] rest[k].set_id@ != set_id by {
                assert(rest[k] == stats[k + 1]);
            }
        }
    }
}

/// The missing count of the set `set_id` in `stats`.
fn missing_count_of(stats: &Vec<SetMissingStats>, set_id: &str) -> (r: i64)
    ensures
        r == missing_count_for(stats@, set_id@),
{
    let mut i: usize = 0;
    assert(stats@.skip(0) =~= stats@);
    while i < stats.len()
        invariant
            i <= stats@.len(),
            missing_count_for(stats@, set_id@) == missing_count_for(stats@.skip(i as int), set_id@),
        decreases stats@.len() - i,
    {
        assert(stats@.skip(i as int)[0] == stats@[i as int]);
        if str_eq(stats[i].set_id.as_str(), set_id) {
            return stats[i].missing;
        }
        assert(stats@.skip(i as int).drop_first() =~= stats@.skip(i + 1));
        i = i + 1;
    }
    assert(stats@.skip(i as int).len() == 0);
    0
}

/// The view of a stored set, with its missing count from `stats`.
pub fn set_model(set: &DbSet, stats: &Vec<SetMissingStats>) -> (r: SetModel)
    ensures
        r.id == set.id,
        r.name == set.name,
        r.release_date == set.release_date,
        r.missing_count == missing_count_for(stats@, set.id@),
        r.language@ == language_of(set.id@),
{
    let missing_count = missing_count_of(stats, set.id.as_str());
    proof {
        reveal_strlit("en-");
    }
    let language = if starts_with(set.id.as_str(), "en-") {
        String::from_str("English")
    } else {
        String::from_str("Japanese")
    };
    SetModel {
        id: set.id.clone(),
        name: set.name.clone(),
        release_date: set.release_date.clone(),
        missing_count,
        language,
    }
}

/// Whether a set of the catalogue must be written again: always when
/// forced, else unless the store marks it finished (`info`) and holds as
/// many of its cards (`db_total`) as the catalogue counts.
pub open spec fn fetch_needed(force: bool, info: Option<DbSet>, db_total: Option<i32>, total_cards: i32) -> bool {
    force || !((info matches Some(s) && s.finished) && db_total == Some(total_cards))
}

/// Whether a set of the catalogue must be written again.
pub fn should_fetch_set(force: bool, set_info: &Option<DbSet>, db_total: Option<i32>, total_cards: i32) -> (r: bool)
    ensures
        r == fetch_needed(force, *set_info, db_total, total_cards),
{
    if force {
        return true;
    }
    let is_finished = match set_info {
        Some(s) => s.finished,
        None => false,
    };
    let complete = is_finished && match db_total {
        Some(t) => t == total_cards,
        None => false,
    };
    !complete
}

/// A forced update writes every set again; otherwise a set is passed over
/// exactly when the store marks it finished and holds as many of its cards
/// as the catalogue counts.
pub proof fn lemma_fetch_decision(force: bool, info: Option<DbSet>, db_total: Option<i32>, total_cards: i32)
    ensures
        force ==> fetch_needed(force, info, db_total, total_cards),
        info is None ==> fetch_needed(force, info, db_total, total_cards),
        db_total != Some(total_cards) ==> fetch_needed(force, info, db_total, total_cards),
        (info matches Some(st) && st.finished) ==> (!force && db_total == Some(total_cards) ==> !fetch_needed(
            force,
            info,
            db_total,
            total_cards,
        )),
        (info matches Some(st) && !st.finished) ==> fetch_needed(force, info, db_total, total_cards),
{
}

/// The sets among `candidates` that must be written again, in order; each
/// candidate is a set of the catalogue with its stored row and the number
/// of its cards the store holds.
pub open spec fn sets_fetched(candidates: Seq<(SetData, Option<DbSet>, Option<i32>)>, force: bool) -> Seq<SetData>
    decreases candidates.len(),
{
    if candidates.len() == 0 {
        Seq::empty()
    } else {
        let rest = sets_fetched(candidates.drop_last(), force);
        let (set, info, db_total) = candidates.last();
        if fetch_needed(force, info, db_total, set.total_cards) {
            rest.push(set)
        } else {
            rest
        }
    }
}

/// Splits the candidate sets of a series into those to write again, in
/// order, and the number passed over as already complete.
pub fn sets_to_fetch(candidates: Vec<(SetData, Option<DbSet>, Option<i32>)>, force: bool) -> (r: (Vec<SetData>, u64))
    ensures
        r.0@ == sets_fetched(candidates@, force),
        r.0@.len() + r.1 == candidates@.len(),
{
    let mut rest = candidates;
    let ghost input = rest@;
    let mut fetched: Vec<SetData> = Vec::new();
    let mut skipped: u64 = 0;
    let mut i: usize = 0;
    let n = rest.len();
    while rest.len() > 0
        invariant
            n == input.len(),
            i + rest@.len() == n,
            rest@ == input.skip(i as int),
            fetched@ == sets_fetched(input.take(i as int), force),
            fetched@.len() + skipped == i,
        decreases rest@.len(),
    {
        let (set, info, db_total) = rest.remove(0);
        proof {
            let t = input.take(i + 1);
            assert(t.drop_last() =~= input.take(i as int));
            assert(t.last() == input[i as int]);
            assert(rest@ =~= input.skip(i + 1));
        }
        if should_fetch_set(force, &info, db_total, set.total_cards) {
            fetched.push(set);
        } else {
            skipped = skipped + 1;
        }
        i = i + 1;
    }
    assert(input.take(n as int) =~= input);
    (fetched, skipped)
}

/// The running count of an update: sets written and cards written.
#[derive(Debug, PartialEq, Eq, Structural, Clone, Copy)]
pub struct UpdateTally {
    pub total_sets: u64,
    pub total_inserted: u64,
}

impl UpdateTally {
    /// Nothing written yet.
    pub fn new() -> (r: UpdateTally)
        ensures
            r.total_sets == 0,
            r.total_inserted == 0,
    {
        UpdateTally { total_sets: 0, total_inserted: 0 }
    }

    /// Counts a set written with `cards` cards.
    pub fn record_set(&mut self, cards: usize)
        requires
            old(self).total_sets < u64::MAX,
            old(self).total_inserted + cards <= u64::MAX,
        ensures
            final(self).total_sets == old(self).total_sets + 1,
            final(self).total_inserted == old(self).total_inserted + cards,
    {
        self.total_sets = self.total_sets + 1;
        self.total_inserted = self.total_inserted + cards as u64;
    }

    /// The message that ends an update.
    pub fn message(&self) -> (r: String)
        ensures
            r@ == "Update complete! Sets: "@ + decimal_text(self.total_sets as nat) + ", Cards: "@ + decimal_text(
                self.total_inserted as nat,
            ),
    {
        let mut r = String::from_str("Update complete! Sets: ");
        let sets = u64_to_text(self.total_sets);
        r.append(sets.as_str());
        r.append(", Cards: ");
        let cards = u64_to_text(self.total_inserted);
        r.append(cards.as_str());
        r
    }
}

/// Where the Android app keeps its store.
#[derive(Debug, PartialEq, Eq, Structural, Clone, Copy)]
pub enum DbLocation {
    /// The external (user-accessible) data directory.
    External,
    /// The internal data directory.
    Internal,
    /// The working directory.
    WorkingDirectory,
}

/// Chooses the store's location: an existing non-empty store in the
/// external directory, else in the internal one; else the external
/// directory where there is one, else the internal one, else the working
/// directory.
pub fn choose_db_location(
    has_external: bool,
    has_internal: bool,
    external_has_data: bool,
    internal_has_data: bool,
) -> (r: DbLocation)
    ensures
        r == (if has_external && external_has_data {
            DbLocation::External
        } else if has_internal && internal_has_data {
            DbLocation::Internal
        } else if has_external {
            DbLocation::External
        } else if has_internal {
            DbLocation::Internal
        } else {
            DbLocation::WorkingDirectory
        }),
{
    let mut picked = if has_external {
        DbLocation::External
    } else if has_internal {
        DbLocation::Internal
    } else {
        DbLocation::WorkingDirectory
    };
    if has_external && external_has_data {
        picked = DbLocation::External;
    } else if has_internal && internal_has_data {
        picked = DbLocation::Internal;
    }
    picked
}

/// The sets of a language in catalogue order: those of each series in turn.
pub open spec fn sets_in_order(series: Seq<SerieView>, sets: Map<Seq<char>, Seq<SetView>>) -> Seq<SetView>
    decreases series.len(),
{
    if series.len() == 0 {
        Seq::empty()
    } else {
        sets_in_order(series.drop_last(), sets) + sets[series.last().id]
    }
}

/// How many cards the catalogue has for the sets.
pub open spec fn cards_total(sets: Seq<SetView>, cards: Map<Seq<char>, Seq<CardView>>) -> nat
    decreases sets.len(),
{
    if sets.len() == 0 {
        0
    } else {
        cards_total(sets.drop_last(), cards) + cards[sets.last().id].len()
    }
}

/// The sets of a loaded language in catalogue order (none for a language
/// that is not loaded).
pub open spec fn language_sets(v: CatalogView, lang: Seq<char>) -> Seq<SetView> {
    if v.series.contains_key(lang) {
        sets_in_order(v.series[lang], v.sets[lang])
    } else {
        Seq::empty()
    }
}

/// How many cards the catalogue has for the sets of a loaded language.
pub open spec fn language_cards(v: CatalogView, lang: Seq<char>) -> nat {
    if v.series.contains_key(lang) {
        cards_total(language_sets(v, lang), v.cards[lang])
    } else {
        0
    }
}

/// What an update of the store from the catalogue would write.
#[derive(Debug, PartialEq, Eq, Structural, Clone, Copy)]
pub struct UpdateSummary {
    pub sets_completed: u64,
    pub cards_inserted: u64,
    pub cards_skipped: u64,
}

/// Sets of the catalogue's series have their cards.
proof fn lemma_sets_in_order_have_cards(
    series: Seq<SerieView>,
    sets: Map<Seq<char>, Seq<SetView>>,
    cards: Map<Seq<char>, Seq<CardView>>,
)
    requires
        forall|i: int| 0 <= i < series.len() ==> sets.contains_key(#[trigger] series[i].id),
        forall|k: Seq<char>, j: int|
            #![trigger sets[k][j]]
            sets.contains_key(k) && 0 <= j < sets[k].len() ==> cards.contains_key(sets[k][j].id),
    ensures
        forall|j: int|
            0 <= j < sets_in_order(series, sets).len() ==> cards.contains_key(
                #[trigger] sets_in_order(series, sets)[j].id,
            ),
    decreases series.len(),
{
    if series.len() > 0 {
        let init = series.drop_last();
        assert forall|i: int| 0 <= i < init.len() implies sets.contains_key(#[trigger] init[i].id) by {
            assert(init[i] == series[i]);
        }
        lemma_sets_in_order_have_cards(init, sets, cards);
        let a = sets_in_order(init, sets);
        let k = series.last().id;
        assert(sets.contains_key(series[series.len() - 1].id));
        assert forall|j: int| 0 <= j < sets_in_order(series, sets).len() implies cards.contains_key(
            #[trigger] sets_in_order(series, sets)[j].id,
        ) by {
            if j >= a.len() {
                assert(sets_in_order(series, sets)[j] == sets[k][j - a.len()]);
            } else {
                assert(sets_in_order(series, sets)[j] == a[j]);
            }
        }
    }
}

/// Counting the cards of a prefix of the sets gives no more than of all.
proof fn lemma_cards_total_prefix(sets: Seq<SetView>, cards: Map<Seq<char>, Seq<CardView>>, k: int)
    requires
        0 <= k <= sets.len(),
    ensures
        cards_total(sets.take(k), cards) <= cards_total(sets, cards),
    decreases sets.len(),
{
    if k < sets.len() {
        lemma_cards_total_prefix(sets.drop_last(), cards, k);
        assert(sets.drop_last().take(k) =~= sets.take(k));
    } else {
        assert(sets.take(k) =~= sets);
    }
}

/// Plans the update of one language: the sets to write (all of them when
/// forced, none otherwise) and how many cards they hold.
fn plan_language(db: &CardsDatabase, lang: &str, force: bool) -> (r: Result<(u64, u64), DatabaseError>)
    requires
        force ==> language_cards(db@, lang@) <= u64::MAX,
    ensures
        match r {
            Ok((sets, cards)) => {
                &&& db@.series.contains_key(lang@)
                &&& sets == (if force { language_sets(db@, lang@).len() } else { 0 })
                &&& cards == (if force { language_cards(db@, lang@) } else { 0 })
            },
            Err(e) => !db@.series.contains_key(lang@) && e.is_language_not_loaded(lang@),
        },
{
    db.check_consistent();
    let series_list = db.load_series(lang)?;
    let ghost series = db@.series[lang@];
    let ghost sets = db@.sets[lang@];
    let ghost cards = db@.cards[lang@];
    assert(catalog_consistent(db@) ==> db@.sets.contains_key(lang@));
    let mut sets_to_process: Vec<SetData> = Vec::new();
    let mut i: usize = 0;
    while i < series_list.len()
        invariant
            i <= series_list@.len(),
            series_list.deep_view() == series,
            catalog_consistent(db@),
            db@.series.contains_key(lang@),
            series == db@.series[lang@],
            sets == db@.sets[lang@],
            sets_to_process.deep_view() == (if force { sets_in_order(series.take(i as int), sets) } else { Seq::empty() }),
        decreases series_list@.len() - i,
    {
        assert(series_list@[i as int]@ == series[i as int]);
        assert(series.take(i + 1).drop_last() =~= series.take(i as int));
        assert(series.take(i + 1).last() == series[i as int]);
        let set_list = match db.load_sets_for_series(series_list[i].id.as_str(), lang) {
            Ok(v) => v,
            Err(e) => {
                assert(sets.contains_key(series[i as int].id));
                return Err(e);
            },
        };
        if force {
            let ghost before = sets_to_process.deep_view();
            let mut j: usize = 0;
            while j < set_list.len()
                invariant
                    j <= set_list@.len(),
                    sets_to_process.deep_view() == before + set_list.deep_view().take(j as int),
                decreases set_list@.len() - j,
            {
                let c = set_list[j].clone();
                assert(c.deep_view() == set_list.deep_view()[j as int]);
                let ghost prev = sets_to_process.deep_view();
                sets_to_process.push(c);
                assert(sets_to_process.deep_view() =~= prev.push(c.deep_view()));
                assert(set_list.deep_view().take(j + 1) =~= set_list.deep_view().take(j as int).push(
                    set_list.deep_view()[j as int],
                ));
                assert(sets_to_process.deep_view() =~= before + set_list.deep_view().take(j + 1));
                j = j + 1;
            }
            assert(set_list.deep_view().take(set_list@.len() as int) =~= set_list.deep_view());
        }
        i = i + 1;
    }
    assert(series.take(series_list@.len() as int) =~= series);
    proof {
        lemma_sets_in_order_have_cards(series, sets, cards);
    }
    let ghost order = sets_to_process.deep_view();
    let mut sets_completed: u64 = 0;
    let mut cards_inserted: u64 = 0;
    let mut k: usize = 0;
    while k < sets_to_process.len()
        invariant
            k <= sets_to_process@.len(),
            order == sets_to_process.deep_view(),
            force ==> order == language_sets(db@, lang@),
            !force ==> order.len() == 0,
            force ==> language_cards(db@, lang@) <= u64::MAX,
            db@.series.contains_key(lang@),
            cards == db@.cards[lang@],
            db@.cards.contains_key(lang@),
            forall|j: int| 0 <= j < order.len() ==> cards.contains_key(#[trigger] order[j].id),
            sets_completed == k,
            cards_inserted == cards_total(order.take(k as int), cards),
        decreases sets_to_process@.len() - k,
    {
        assert(order[k as int] == sets_to_process@[k as int]@);
        let card_list = match db.load_cards(sets_to_process[k].id.as_str(), lang) {
            Ok(v) => v,
            Err(e) => {
                assert(cards.contains_key(order[k as int].id));
                return Err(e);
            },
        };
        proof {
            assert(order.take(k + 1).drop_last() =~= order.take(k as int));
            assert(order.take(k + 1).last() == order[k as int]);
            lemma_cards_total_prefix(order, cards, k + 1);
        }
        sets_completed = sets_completed + 1;
        cards_inserted = cards_inserted + card_list.len() as u64;
        k = k + 1;
    }
    assert(order.take(order.len() as int) =~= order);
    Ok((sets_completed, cards_inserted))
}

/// What updating the store from the catalogue would write, language by
/// language (English, then Japanese): when forced, every set of the
/// catalogue and its cards; otherwise nothing.  Fails where a language is
/// not loaded.
pub fn plan_update(db: &CardsDatabase, force: bool) -> (r: Result<UpdateSummary, DatabaseError>)
    requires
        force ==> language_cards(db@, "en"@) + language_cards(db@, "ja"@) <= u64::MAX,
        force ==> language_sets(db@, "en"@).len() + language_sets(db@, "ja"@).len() <= u64::MAX,
    ensures
        match r {
            Ok(summary) => {
                &&& db@.series.contains_key("en"@)
                &&& db@.series.contains_key("ja"@)
                &&& summary.sets_completed == (if force {
                    language_sets(db@, "en"@).len() + language_sets(db@, "ja"@).len()
                } else {
                    0
                })
                &&& summary.cards_inserted == (if force {
                    language_cards(db@, "en"@) + language_cards(db@, "ja"@)
                } else {
                    0
                })
                &&& summary.cards_skipped == 0
            },
            Err(e) => {
                ||| !db@.series.contains_key("en"@) && e.is_language_not_loaded("en"@)
                ||| db@.series.contains_key("en"@) && !db@.series.contains_key("ja"@)
                    && e.is_language_not_loaded("ja"@)
            },
        },
{
    let (en_sets, en_cards) = plan_language(db, "en", force)?;
    let (ja_sets, ja_cards) = plan_language(db, "ja", force)?;
    Ok(UpdateSummary { sets_completed: en_sets + ja_sets, cards_inserted: en_cards + ja_cards, cards_skipped: 0 })
}

/// Toggling the same Pokémon twice leaves the cards as they were: the
/// second toggle finds the same card and flips its flag back.
pub proof fn lemma_toggle_twice_restores(s: Seq<CardModel>, dex_id: i32, i: int, j: int)
    requires
        first_with_dex(s, dex_id, i),
        first_with_dex(s.update(i, with_collected(s[i], !s[i].is_collected)), dex_id, j),
    ensures
        ({
            let once = s.update(i, with_collected(s[i], !s[i].is_collected));
            once.update(j, with_collected(once[j], !once[j].is_collected)) == s
        }),
{
    let once = s.update(i, with_collected(s[i], !s[i].is_collected));
    if j < i {
        assert(once[j] == s[j]);
    }
    if i < j {
        assert(once[i].dex_id == dex_id);
    }
    assert(i == j);
    assert(once.update(j, with_collected(once[j], !once[j].is_collected)) =~= s);
}

/// Marking a Pokémon collected twice is marking it once.
pub proof fn lemma_mark_twice_is_once(s: Seq<CardModel>, dex_id: i32, i: int, j: int)
    requires
        first_with_dex(s, dex_id, i),
        first_with_dex(s.update(i, with_collected(s[i], true)), dex_id, j),
    ensures
        ({
            let once = s.update(i, with_collected(s[i], true));
            once.update(j, with_collected(once[j], true)) == once
        }),
{
    let once = s.update(i, with_collected(s[i], true));
    if j < i {
        assert(once[j] == s[j]);
    }
    if i < j {
        assert(once[i].dex_id == dex_id);
    }
    assert(i == j);
    assert(once.update(j, with_collected(once[j], true)) =~= once);
}

/// Filtering what a predicate already kept keeps it all.
proof fn lemma_filter_twice(s: Seq<CardModel>, p: spec_fn(CardModel) -> bool)
    ensures
        s.filter(p).filter(p) == s.filter(p),
    decreases s.len(),
{
    reveal_with_fuel(Seq::<_>::filter, 1);
    if s.len() > 0 {
        lemma_filter_twice(s.drop_last(), p);
        let f = s.drop_last().filter(p);
        if p(s.last()) {
            assert(f.push(s.last()).drop_last() =~= f);
        }
    }
}

/// What each filter keeps, card by card: `collected` keeps exactly the
/// collected cards and `missing` exactly the others, each in the order
/// given; any other filter keeps every card.
pub proof fn lemma_filter_step(s: Seq<CardModel>, c: CardModel, filter: Seq<char>)
    ensures
        filtered(Seq::<CardModel>::empty(), filter) == Seq::<CardModel>::empty(),
        filter == "collected"@ ==> filtered(s.push(c), filter) == (if c.is_collected {
            filtered(s, filter).push(c)
        } else {
            filtered(s, filter)
        }),
        filter == "missing"@ ==> filtered(s.push(c), filter) == (if c.is_collected {
            filtered(s, filter)
        } else {
            filtered(s, filter).push(c)
        }),
        filter != "collected"@ && filter != "missing"@ ==> filtered(s, filter) == s,
{
    reveal_with_fuel(Seq::<_>::filter, 1);
    reveal_strlit("collected");
    reveal_strlit("missing");
    assert("missing"@ != "collected"@) by {
        assert("missing"@[0] != "collected"@[0]);
    }
    assert(s.push(c).drop_last() =~= s);
}

/// Applying a filter again changes nothing: the cards it drops are gone.
pub proof fn lemma_filter_idempotent(s: Seq<CardModel>, filter: Seq<char>)
    ensures
        filtered(filtered(s, filter), filter) == filtered(s, filter),
{
    lemma_filter_twice(s, |c: CardModel| c.is_collected);
    lemma_filter_twice(s, |c: CardModel| !c.is_collected);
}

/// After a filter, every card left agrees with it: `collected` leaves only
/// collected cards, `missing` only uncollected ones.
pub proof fn lemma_filter_keeps_matching(s: Seq<CardModel>, filter: Seq<char>)
    ensures
        filter == "collected"@ ==> forall|i: int|
            0 <= i < filtered(s, filter).len() ==> (#[trigger] filtered(s, filter)[i]).is_collected,
        filter == "missing"@ ==> forall|i: int|
            0 <= i < filtered(s, filter).len() ==> !(#[trigger] filtered(s, filter)[i]).is_collected,
{
    broadcast use vstd::seq_lib::group_filter_ensures;

    reveal_strlit("collected");
    reveal_strlit("missing");
    if filter == "missing"@ {
        assert("missing"@ != "collected"@) by {
            assert("missing"@[0] != "collected"@[0]);
        }
        assert(filtered(s, filter) == s.filter(|c: CardModel| !c.is_collected));
    }
}

} // verus!
