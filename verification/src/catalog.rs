//! The card catalog: raw per-set card tables, and their classification into
//! rarity pools.
//!
//! A raw table maps card names to records of mana value, rarity code and
//! image identifier. Classification pulls the fixed basic lands out first,
//! then dispatches on the rarity code, silently dropping unknown codes; a
//! record with a missing field fails the whole set instead.

use vstd::prelude::*;

use crate::errors::CatalogError;
use crate::names::str_eq;

verus! {

/// A drafted card. The name is the card's identity: no two cards of one set
/// share a name.
#[derive(Debug)]
pub struct Card {
    pub name: String,
    /// Non-negative cost figure, used only for sorting the picked pool.
    pub mana_value: usize,
    /// Opaque token the presentation layer uses to locate the card's image.
    pub display_reference: i64,
    /// Whether the card is currently selected in the open pack.
    pub is_selected: bool,
}

impl Clone for Card {
    fn clone(&self) -> (r: Card)
        ensures
            r == *self,
    {
        Card {
            name: self.name.clone(),
            mana_value: self.mana_value,
            display_reference: self.display_reference,
            is_selected: self.is_selected,
        }
    }
}

/// Mathematical image of a [`Card`].
pub ghost struct CardModel {
    pub name: Seq<char>,
    pub mana_value: int,
    pub display_reference: int,
    pub is_selected: bool,
}

impl View for Card {
    type V = CardModel;

    open spec fn view(&self) -> CardModel {
        CardModel {
            name: self.name@,
            mana_value: self.mana_value as int,
            display_reference: self.display_reference as int,
            is_selected: self.is_selected,
        }
    }
}

/// One entry of a raw per-set card table, as the outside loader hands it in.
/// A field the source data lacks, or holds in an unusable shape, is `None`.
#[derive(Debug)]
pub struct RawCard {
    pub name: String,
    pub mana_value: Option<usize>,
    pub rarity_code: Option<char>,
    pub image_id: Option<i64>,
}

/// A raw record with every required field present.
pub open spec fn complete(rc: RawCard) -> bool {
    &&& rc.mana_value is Some
    &&& rc.rarity_code is Some
    &&& rc.image_id is Some
}

/// The card a complete raw record stands for, not yet selected.
pub open spec fn card_of(rc: RawCard) -> CardModel {
    CardModel {
        name: rc.name@,
        mana_value: rc.mana_value->0 as int,
        display_reference: rc.image_id->0 as int,
        is_selected: false,
    }
}

/// The raw table of one card set: its identifier, and one record per card
/// name. Being a table keyed by name, no two records share a name.
#[derive(Debug)]
pub struct SetTable {
    pub set_id: String,
    pub cards: Vec<RawCard>,
}

/// No two raw records share a name.
pub open spec fn distinct_raw_names(cards: Seq<RawCard>) -> bool {
    forall|i: int, j: int|
        0 <= i < j < cards.len() ==> cards[i].name@ != cards[j].name@
}

impl SetTable {
    /// The shape every raw table has: it is a mapping keyed by card name,
    /// and a present mana value leaves room for a bucket index above it.
    pub open spec fn wf(self) -> bool {
        &&& distinct_raw_names(self.cards@)
        &&& forall|i: int|
            0 <= i < self.cards@.len() ==> ((#[trigger] self.cards@[i]).mana_value is Some
                ==> self.cards@[i].mana_value->0 < usize::MAX)
    }

    /// Decides [`SetTable::wf`], for callers that receive a table from
    /// outside and must establish it.
    pub fn check(&self) -> (r: bool)
        ensures
            r == self.wf(),
    {
        let n = self.cards.len();
        let mut i: usize = 0;
        while i < n
            invariant
                i <= n,
                n == self.cards@.len(),
                forall|p: int, q: int| 0 <= p < q < i ==> self.cards@[p].name@ != self.cards@[q].name@,
                forall|p: int|
                    0 <= p < i ==> ((#[trigger] self.cards@[p]).mana_value is Some
                        ==> self.cards@[p].mana_value->0 < usize::MAX),
            decreases n - i,
        {
            match self.cards[i].mana_value {
                Some(m) => {
                    if m == usize::MAX {
                        return false;
                    }
                },
                None => {},
            }
            let mut j: usize = 0;
            while j < i
                invariant
                    j <= i,
                    i < n,
                    n == self.cards@.len(),
                    forall|q: int| 0 <= q < j ==> self.cards@[q].name@ != self.cards@[i as int].name@,
                decreases i - j,
            {
                if str_eq(self.cards[j].name.as_str(), self.cards[i].name.as_str()) {
                    return false;
                }
                j = j + 1;
            }
            i = i + 1;
        }
        true
    }
}

/// The whole catalog: one raw table per set, keyed by set identifier.
#[derive(Debug)]
pub struct Catalog {
    pub sets: Vec<SetTable>,
}

impl Catalog {
    /// The shape of the input data: a mapping from set identifier to a
    /// well-formed raw table.
    pub open spec fn wf(self) -> bool {
        &&& forall|i: int| 0 <= i < self.sets@.len() ==> (#[trigger] self.sets@[i]).wf()
        &&& forall|i: int, j: int|
            0 <= i < j < self.sets@.len() ==> self.sets@[i].set_id@ != self.sets@[j].set_id@
    }

    /// Whether some set of the catalog carries this identifier.
    pub open spec fn has_set(self, id: Seq<char>) -> bool {
        exists|i: int| 0 <= i < self.sets@.len() && (#[trigger] self.sets@[i]).set_id@ == id
    }

    /// The table of the set with this identifier (well defined when the
    /// catalog is well formed and has the set).
    pub open spec fn set_with_id(self, id: Seq<char>) -> SetTable {
        self.sets@[choose|i: int| 0 <= i < self.sets@.len() && (#[trigger] self.sets@[i]).set_id@ == id]
    }

    /// Decides [`Catalog::wf`], for callers that receive a catalog from
    /// outside and must establish it.
    pub fn check(&self) -> (r: bool)
        ensures
            r == self.wf(),
    {
        let n = self.sets.len();
        let mut i: usize = 0;
        while i < n
            invariant
                i <= n,
                n == self.sets@.len(),
                forall|p: int| 0 <= p < i ==> (#[trigger] self.sets@[p]).wf(),
                forall|p: int, q: int| 0 <= p < q < i ==> self.sets@[p].set_id@ != self.sets@[q].set_id@,
            decreases n - i,
        {
            if !self.sets[i].check() {
                return false;
            }
            let mut j: usize = 0;
            while j < i
                invariant
                    j <= i,
                    i < n,
                    n == self.sets@.len(),
                    forall|q: int| 0 <= q < j ==> self.sets@[q].set_id@ != self.sets@[i as int].set_id@,
                decreases i - j,
            {
                if str_eq(self.sets[j].set_id.as_str(), self.sets[i].set_id.as_str()) {
                    return false;
                }
                j = j + 1;
            }
            i = i + 1;
        }
        true
    }

    /// Finds the position of the set with this identifier.
    pub fn find_set(&self, id: &str) -> (r: Option<usize>)
        ensures
            r is Some <==> self.has_set(id@),
            r is Some ==> r->0 < self.sets@.len() && self.sets@[r->0 as int].set_id@ == id@,
            self.wf() && r is Some ==> self.sets@[r->0 as int] == self.set_with_id(id@),
    {
        let n = self.sets.len();
        let mut i: usize = 0;
        while i < n
            invariant
                i <= n,
                n == self.sets@.len(),
                forall|p: int| 0 <= p < i ==> (#[trigger] self.sets@[p]).set_id@ != id@,
            decreases n - i,
        {
            if str_eq(self.sets[i].set_id.as_str(), id) {
                proof {
                    if self.wf() {
                        let w = choose|k: int|
                            0 <= k < self.sets@.len() && (#[trigger] self.sets@[k]).set_id@ == id@;
                        assert(self.sets@[i as int].set_id@ == id@);
                        assert(w == i as int);
                    }
                }
                return Some(i);
            }
            i = i + 1;
        }
        None
    }
}

/// The fixed identities of basic lands: the five basic land names and their
/// snow-covered variants. A card with one of these names is exempt from
/// rarity classification, whatever its rarity code says.
pub open spec fn is_basic_name(name: Seq<char>) -> bool {
    ||| name == "Forest"@
    ||| name == "Mountain"@
    ||| name == "Swamp"@
    ||| name == "Plains"@
    ||| name == "Island"@
    ||| name == "Snow-Covered Forest"@
    ||| name == "Snow-Covered Mountain"@
    ||| name == "Snow-Covered Swamp"@
    ||| name == "Snow-Covered Plains"@
    ||| name == "Snow-Covered Island"@
}

/// Decides membership in the basic-land allow-list.
pub fn is_basic(name: &str) -> (r: bool)
    ensures
        r == is_basic_name(name@),
{
    str_eq(name, "Forest") || str_eq(name, "Mountain") || str_eq(name, "Swamp")
        || str_eq(name, "Plains") || str_eq(name, "Island")
        || str_eq(name, "Snow-Covered Forest") || str_eq(name, "Snow-Covered Mountain")
        || str_eq(name, "Snow-Covered Swamp") || str_eq(name, "Snow-Covered Plains")
        || str_eq(name, "Snow-Covered Island")
}

/// A complete record that classification sends to the rarity pool of `code`:
/// not a basic land, and carrying exactly this rarity code.
pub open spec fn keeps(rc: RawCard, code: char) -> bool {
    &&& complete(rc)
    &&& !is_basic_name(rc.name@)
    &&& rc.rarity_code->0 == code
}

/// A complete record that classification sends to the basics pool.
pub open spec fn keeps_basic(rc: RawCard) -> bool {
    complete(rc) && is_basic_name(rc.name@)
}

/// The rarity pool of `code` that a raw table classifies to, in table order.
pub open spec fn pool_model(cards: Seq<RawCard>, code: char) -> Seq<CardModel>
    decreases cards.len(),
{
    if cards.len() == 0 {
        Seq::empty()
    } else {
        let rest = pool_model(cards.drop_last(), code);
        if keeps(cards.last(), code) {
            rest.push(card_of(cards.last()))
        } else {
            rest
        }
    }
}

/// The basics pool that a raw table classifies to, in table order.
pub open spec fn basics_model(cards: Seq<RawCard>) -> Seq<CardModel>
    decreases cards.len(),
{
    if cards.len() == 0 {
        Seq::empty()
    } else {
        let rest = basics_model(cards.drop_last());
        if keeps_basic(cards.last()) {
            rest.push(card_of(cards.last()))
        } else {
            rest
        }
    }
}

/// The mathematical image of a pool of cards.
pub open spec fn card_models(s: Seq<Card>) -> Seq<CardModel> {
    s.map_values(|c: Card| c@)
}

/// No two cards of a pool share a name.
pub open spec fn distinct_names(s: Seq<Card>) -> bool {
    forall|i: int, j: int| 0 <= i < j < s.len() ==> s[i].name@ != s[j].name@
}

/// Cards as classification dealt them: not yet selected, and with room for
/// a bucket index above their mana value.
pub open spec fn cards_fresh(s: Seq<Card>) -> bool {
    forall|i: int|
        0 <= i < s.len() ==> (!(#[trigger] s[i]).is_selected && s[i].mana_value < usize::MAX)
}

/// No card of one pool shares a name with a card of the other.
pub open spec fn disjoint_names(a: Seq<Card>, b: Seq<Card>) -> bool {
    forall|i: int, j: int|
        0 <= i < a.len() && 0 <= j < b.len() ==> a[i].name@ != b[j].name@
}

/// The five rarity pools one prepared set classifies into. The pools of a
/// set are unordered at heart; they are held in table order.
#[derive(Debug)]
pub struct RarityPools {
    pub mythics: Vec<Card>,
    pub rares: Vec<Card>,
    pub uncommons: Vec<Card>,
    pub commons: Vec<Card>,
    pub basics: Vec<Card>,
}

impl RarityPools {
    /// The pools are exactly what the raw table classifies to.
    pub open spec fn models(self, cards: Seq<RawCard>) -> bool {
        &&& card_models(self.mythics@) == pool_model(cards, 'm')
        &&& card_models(self.rares@) == pool_model(cards, 'r')
        &&& card_models(self.uncommons@) == pool_model(cards, 'u')
        &&& card_models(self.commons@) == pool_model(cards, 'c')
        &&& card_models(self.basics@) == basics_model(cards)
    }

    /// Invariants every prepared set's pools enjoy: names are distinct
    /// within and across pools, no rarity pool holds a basic land, the
    /// basics pool holds nothing else, and no card is born selected.
    pub open spec fn wf(self) -> bool {
        &&& distinct_names(self.mythics@)
        &&& distinct_names(self.rares@)
        &&& distinct_names(self.uncommons@)
        &&& distinct_names(self.commons@)
        &&& distinct_names(self.basics@)
        &&& disjoint_names(self.mythics@, self.rares@)
        &&& disjoint_names(self.mythics@, self.uncommons@)
        &&& disjoint_names(self.mythics@, self.commons@)
        &&& disjoint_names(self.mythics@, self.basics@)
        &&& disjoint_names(self.rares@, self.uncommons@)
        &&& disjoint_names(self.rares@, self.commons@)
        &&& disjoint_names(self.rares@, self.basics@)
        &&& disjoint_names(self.uncommons@, self.commons@)
        &&& disjoint_names(self.uncommons@, self.basics@)
        &&& disjoint_names(self.commons@, self.basics@)
        &&& (forall|i: int|
            0 <= i < self.mythics@.len() ==> !is_basic_name((#[trigger] self.mythics@[i]).name@))
        &&& (forall|i: int|
            0 <= i < self.rares@.len() ==> !is_basic_name((#[trigger] self.rares@[i]).name@))
        &&& (forall|i: int|
            0 <= i < self.uncommons@.len() ==> !is_basic_name((#[trigger] self.uncommons@[i]).name@))
        &&& (forall|i: int|
            0 <= i < self.commons@.len() ==> !is_basic_name((#[trigger] self.commons@[i]).name@))
        &&& (forall|i: int|
            0 <= i < self.basics@.len() ==> is_basic_name((#[trigger] self.basics@[i]).name@))
        &&& cards_fresh(self.mythics@)
        &&& cards_fresh(self.rares@)
        &&& cards_fresh(self.uncommons@)
        &&& cards_fresh(self.commons@)
        &&& cards_fresh(self.basics@)
    }
}

/// Every entry of a rarity pool model stems from some record of the table
/// that classification keeps for that pool.
proof fn lemma_pool_model_origin(cards: Seq<RawCard>, code: char, k: int)
    requires
        0 <= k < pool_model(cards, code).len(),
    ensures
        exists|j: int|
            0 <= j < cards.len() && keeps(#[trigger] cards[j], code)
                && pool_model(cards, code)[k] == card_of(cards[j]),
    decreases cards.len(),
{
    let last = cards.len() - 1;
    let rest = pool_model(cards.drop_last(), code);
    if keeps(cards.last(), code) && k == rest.len() {
        assert(cards[last] == cards.last());
        assert(pool_model(cards, code)[k] == card_of(cards[last]));
    } else {
        lemma_pool_model_origin(cards.drop_last(), code, k);
        let j = choose|j: int|
            0 <= j < cards.drop_last().len() && keeps(#[trigger] cards.drop_last()[j], code)
                && rest[k] == card_of(cards.drop_last()[j]);
        assert(cards.drop_last()[j] == cards[j]);
        assert(keeps(cards[j], code) && pool_model(cards, code)[k] == card_of(cards[j]));
    }
}

/// Every entry of the basics pool model stems from some basic-land record.
proof fn lemma_basics_model_origin(cards: Seq<RawCard>, k: int)
    requires
        0 <= k < basics_model(cards).len(),
    ensures
        exists|j: int|
            0 <= j < cards.len() && keeps_basic(#[trigger] cards[j])
                && basics_model(cards)[k] == card_of(cards[j]),
    decreases cards.len(),
{
    let last = cards.len() - 1;
    let rest = basics_model(cards.drop_last());
    if keeps_basic(cards.last()) && k == rest.len() {
        assert(cards[last] == cards.last());
        assert(basics_model(cards)[k] == card_of(cards[last]));
    } else {
        lemma_basics_model_origin(cards.drop_last(), k);
        let j = choose|j: int|
            0 <= j < cards.drop_last().len() && keeps_basic(#[trigger] cards.drop_last()[j])
                && rest[k] == card_of(cards.drop_last()[j]);
        assert(cards.drop_last()[j] == cards[j]);
        assert(keeps_basic(cards[j]) && basics_model(cards)[k] == card_of(cards[j]));
    }
}

/// Classification of one more record extends exactly the pool that keeps it.
proof fn lemma_pool_model_step(cards: Seq<RawCard>, code: char, i: int)
    requires
        0 <= i < cards.len(),
    ensures
        pool_model(cards.take(i + 1), code) == if keeps(cards[i], code) {
            pool_model(cards.take(i), code).push(card_of(cards[i]))
        } else {
            pool_model(cards.take(i), code)
        },
{
    assert(cards.take(i + 1).drop_last() =~= cards.take(i));
    assert(cards.take(i + 1).last() == cards[i]);
}

/// Classification of one more record extends the basics pool exactly when
/// the record is a basic land.
proof fn lemma_basics_model_step(cards: Seq<RawCard>, i: int)
    requires
        0 <= i < cards.len(),
    ensures
        basics_model(cards.take(i + 1)) == if keeps_basic(cards[i]) {
            basics_model(cards.take(i)).push(card_of(cards[i]))
        } else {
            basics_model(cards.take(i))
        },
{
    assert(cards.take(i + 1).drop_last() =~= cards.take(i));
    assert(cards.take(i + 1).last() == cards[i]);
}

/// Appending a card to a pool appends its image to the pool's model.
proof fn lemma_card_models_push(s: Seq<Card>, c: Card)
    ensures
        card_models(s.push(c)) == card_models(s).push(c@),
{
    assert(card_models(s.push(c)) =~= card_models(s).push(c@));
}

/// While a prefix of a well-formed table is classified, no pool holds the
/// name of a record the classification has not reached yet.
proof fn lemma_pools_lack_name(pools: RarityPools, cards: Seq<RawCard>, i: int)
    requires
        distinct_raw_names(cards),
        0 <= i < cards.len(),
        pools.models(cards.take(i)),
    ensures
        forall|k: int|
            0 <= k < pools.mythics@.len() ==> (#[trigger] pools.mythics@[k]).name@ != cards[i].name@,
        forall|k: int|
            0 <= k < pools.rares@.len() ==> (#[trigger] pools.rares@[k]).name@ != cards[i].name@,
        forall|k: int|
            0 <= k < pools.uncommons@.len()
                ==> (#[trigger] pools.uncommons@[k]).name@ != cards[i].name@,
        forall|k: int|
            0 <= k < pools.commons@.len() ==> (#[trigger] pools.commons@[k]).name@ != cards[i].name@,
        forall|k: int|
            0 <= k < pools.basics@.len() ==> (#[trigger] pools.basics@[k]).name@ != cards[i].name@,
{
    let prefix = cards.take(i);
    assert forall|k: int|
        0 <= k < pools.mythics@.len() implies (#[trigger] pools.mythics@[k]).name@
        != cards[i].name@ by {
        if pools.mythics@[k].name@ == cards[i].name@ {
            lemma_pool_model_origin(prefix, 'm', k);
            let j = choose|j: int|
                0 <= j < prefix.len() && keeps(#[trigger] prefix[j], 'm')
                    && pool_model(prefix, 'm')[k] == card_of(prefix[j]);
            assert(card_models(pools.mythics@)[k] == pools.mythics@[k]@);
            assert(cards[j].name@ == cards[i].name@);
        }
    }
    assert forall|k: int|
        0 <= k < pools.rares@.len() implies (#[trigger] pools.rares@[k]).name@
        != cards[i].name@ by {
        if pools.rares@[k].name@ == cards[i].name@ {
            lemma_pool_model_origin(prefix, 'r', k);
            let j = choose|j: int|
                0 <= j < prefix.len() && keeps(#[trigger] prefix[j], 'r')
                    && pool_model(prefix, 'r')[k] == card_of(prefix[j]);
            assert(card_models(pools.rares@)[k] == pools.rares@[k]@);
            assert(cards[j].name@ == cards[i].name@);
        }
    }
    assert forall|k: int|
        0 <= k < pools.uncommons@.len() implies (#[trigger] pools.uncommons@[k]).name@
        != cards[i].name@ by {
        if pools.uncommons@[k].name@ == cards[i].name@ {
            lemma_pool_model_origin(prefix, 'u', k);
            let j = choose|j: int|
                0 <= j < prefix.len() && keeps(#[trigger] prefix[j], 'u')
                    && pool_model(prefix, 'u')[k] == card_of(prefix[j]);
            assert(card_models(pools.uncommons@)[k] == pools.uncommons@[k]@);
            assert(cards[j].name@ == cards[i].name@);
        }
    }
    assert forall|k: int|
        0 <= k < pools.commons@.len() implies (#[trigger] pools.commons@[k]).name@
        != cards[i].name@ by {
        if pools.commons@[k].name@ == cards[i].name@ {
            lemma_pool_model_origin(prefix, 'c', k);
            let j = choose|j: int|
                0 <= j < prefix.len() && keeps(#[trigger] prefix[j], 'c')
                    && pool_model(prefix, 'c')[k] == card_of(prefix[j]);
            assert(card_models(pools.commons@)[k] == pools.commons@[k]@);
            assert(cards[j].name@ == cards[i].name@);
        }
    }
    assert forall|k: int|
        0 <= k < pools.basics@.len() implies (#[trigger] pools.basics@[k]).name@
        != cards[i].name@ by {
        if pools.basics@[k].name@ == cards[i].name@ {
            lemma_basics_model_origin(prefix, k);
            let j = choose|j: int|
                0 <= j < prefix.len() && keeps_basic(#[trigger] prefix[j])
                    && basics_model(prefix)[k] == card_of(prefix[j]);
            assert(card_models(pools.basics@)[k] == pools.basics@[k]@);
            assert(cards[j].name@ == cards[i].name@);
        }
    }
}

/// Classifies one raw set table into its five rarity pools.
///
/// Succeeds exactly when every record is complete; a malformed record fails
/// the whole set, surfacing the first offender. On success the pools are
/// exactly what the table classifies to, and enjoy the pool invariants.
pub fn classify(table: &SetTable) -> (r: Result<RarityPools, CatalogError>)
    requires
        table.wf(),
    ensures
        r is Ok <==> (forall|j: int| 0 <= j < table.cards@.len() ==> complete(#[trigger] table.cards@[j])),
        r is Ok ==> r->Ok_0.models(table.cards@),
        r is Ok ==> r->Ok_0.wf(),
        r is Err ==> exists|j: int|
            0 <= j < table.cards@.len() && !complete(#[trigger] table.cards@[j])
                && (forall|p: int| 0 <= p < j ==> complete(#[trigger] table.cards@[p]))
                && r->Err_0.card_name@ == table.cards@[j].name@,
{
    let mut pools = RarityPools {
        mythics: Vec::new(),
        rares: Vec::new(),
        uncommons: Vec::new(),
        commons: Vec::new(),
        basics: Vec::new(),
    };
    let n = table.cards.len();
    proof {
        assert(table.cards@.take(0) =~= Seq::<RawCard>::empty());
        assert(card_models(pools.mythics@) =~= Seq::<CardModel>::empty());
        assert(card_models(pools.rares@) =~= Seq::<CardModel>::empty());
        assert(card_models(pools.uncommons@) =~= Seq::<CardModel>::empty());
        assert(card_models(pools.commons@) =~= Seq::<CardModel>::empty());
        assert(card_models(pools.basics@) =~= Seq::<CardModel>::empty());
    }
    let mut i: usize = 0;
    while i < n
        invariant
            i <= n,
            n == table.cards@.len(),
            table.wf(),
            forall|j: int| 0 <= j < i ==> complete(#[trigger] table.cards@[j]),
            pools.models(table.cards@.take(i as int)),
            pools.wf(),
        decreases n - i,
    {
        let rc = &table.cards[i];
        if rc.mana_value.is_none() || rc.rarity_code.is_none() || rc.image_id.is_none() {
            return Err(CatalogError { card_name: rc.name.clone() });
        }
        let mv = rc.mana_value.unwrap();
        let code = rc.rarity_code.unwrap();
        let img = rc.image_id.unwrap();
        let card = Card { name: rc.name.clone(), mana_value: mv, display_reference: img, is_selected: false };
        proof {
            assert(card@ == card_of(table.cards@[i as int]));
            lemma_pools_lack_name(pools, table.cards@, i as int);
            lemma_pool_model_step(table.cards@, 'm', i as int);
            lemma_pool_model_step(table.cards@, 'r', i as int);
            lemma_pool_model_step(table.cards@, 'u', i as int);
            lemma_pool_model_step(table.cards@, 'c', i as int);
            lemma_basics_model_step(table.cards@, i as int);
        }
        if is_basic(card.name.as_str()) {
            proof {
                lemma_card_models_push(pools.basics@, card);
            }
            pools.basics.push(card);
        } else if code == 'm' {
            proof {
                lemma_card_models_push(pools.mythics@, card);
            }
            pools.mythics.push(card);
        } else if code == 'r' {
            proof {
                lemma_card_models_push(pools.rares@, card);
            }
            pools.rares.push(card);
        } else if code == 'u' {
            proof {
                lemma_card_models_push(pools.uncommons@, card);
            }
            pools.uncommons.push(card);
        } else if code == 'c' {
            proof {
                lemma_card_models_push(pools.commons@, card);
            }
            pools.commons.push(card);
        }
        i = i + 1;
    }
    proof {
        assert(table.cards@.take(n as int) =~= table.cards@);
    }
    Ok(pools)
}

} // verus!
