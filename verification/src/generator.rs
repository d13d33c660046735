//! The pack generator: owns the rarity pools of the currently prepared set
//! and the ordered plan of sets to draft from, and produces packs by
//! weighted sampling without duplicate names.

use vstd::prelude::*;

use crate::catalog::{
    cards_fresh, classify, complete, distinct_names, disjoint_names, pool_model, Card, Catalog,
    RarityPools,
};
use crate::errors::DraftError;
use crate::names::str_eq;
use crate::rng::Prng;
use crate::{COMMONS_PER_PACK, MYTHIC_PROMOTION_ODDS, UNCOMMONS_PER_PACK};

verus! {

/// One opened pack: the cards offered for picking, in dealt order, and the
/// count of picks already taken from it.
#[derive(Debug)]
pub struct Pack {
    pub cards: Vec<Card>,
    pub picks_taken: usize,
}

/// What every freshly generated pack looks like: one rare-or-mythic, then
/// the uncommon slots, then the common slots, plus one basic land exactly
/// when the prepared set has any; and no two cards of the rarity slots
/// share a name.
pub open spec fn pack_cards_wf(cards: Seq<Card>, pools: RarityPools) -> bool {
    let u = UNCOMMONS_PER_PACK as int;
    let fixed = 1 + u + COMMONS_PER_PACK as int;
    &&& cards.len() == fixed || cards.len() == fixed + 1
    &&& (cards.len() == fixed + 1 <==> pools.basics@.len() > 0)
    &&& (pools.mythics@.contains(cards[0]) || pools.rares@.contains(cards[0]))
    &&& (forall|k: int| 1 <= k < 1 + u ==> pools.uncommons@.contains(#[trigger] cards[k]))
    &&& (forall|k: int| 1 + u <= k < fixed ==> pools.commons@.contains(#[trigger] cards[k]))
    &&& (cards.len() == fixed + 1 ==> pools.basics@.contains(cards[fixed]))
    &&& (forall|i: int, j: int| 0 <= i < j < fixed ==> cards[i].name@ != cards[j].name@)
}

/// Total number of packs a list of configured `(set, count)` pairs asks for.
pub open spec fn sum_counts(pairs: Seq<(String, usize)>) -> int
    decreases pairs.len(),
{
    if pairs.len() == 0 {
        0
    } else {
        sum_counts(pairs.drop_last()) + pairs.last().1 as int
    }
}

/// One more configured pair adds exactly its count.
pub proof fn lemma_sum_counts_step(pairs: Seq<(String, usize)>, i: int)
    requires
        0 <= i < pairs.len(),
    ensures
        sum_counts(pairs.take(i + 1)) == sum_counts(pairs.take(i)) + pairs[i].1 as int,
{
    assert(pairs.take(i + 1).drop_last() =~= pairs.take(i));
    assert(pairs.take(i + 1).last() == pairs[i]);
}

/// No prefix asks for more packs than the whole list.
pub proof fn lemma_sum_counts_take_bound(pairs: Seq<(String, usize)>, i: int)
    requires
        0 <= i <= pairs.len(),
    ensures
        sum_counts(pairs.take(i)) <= sum_counts(pairs),
    decreases pairs.len() - i,
{
    if i < pairs.len() {
        lemma_sum_counts_step(pairs, i);
        lemma_sum_counts_take_bound(pairs, i + 1);
    } else {
        assert(pairs.take(i) =~= pairs);
    }
}

/// Whether some configured pair carries this set identifier.
pub open spec fn id_configured(pairs: Seq<(String, usize)>, id: Seq<char>) -> bool {
    exists|i: int| 0 <= i < pairs.len() && (#[trigger] pairs[i]).0@ == id
}

/// Whether some identifier of the list reads this way.
pub open spec fn ids_contain(ids: Seq<String>, id: Seq<char>) -> bool {
    exists|i: int| 0 <= i < ids.len() && (#[trigger] ids[i])@ == id
}

/// Decides [`ids_contain`].
pub fn contains_id(ids: &Vec<String>, id: &str) -> (r: bool)
    ensures
        r == ids_contain(ids@, id@),
{
    let n = ids.len();
    let mut i: usize = 0;
    while i < n
        invariant
            i <= n,
            n == ids@.len(),
            forall|k: int| 0 <= k < i ==> (#[trigger] ids@[k])@ != id@,
        decreases n - i,
    {
        if str_eq(ids[i].as_str(), id) {
            return true;
        }
        i = i + 1;
    }
    false
}

/// Reorders the list uniformly at random, keeping exactly the same items.
pub fn shuffle(items: &mut Vec<String>, rng: &mut Prng)
    ensures
        final(items)@.len() == old(items)@.len(),
        final(items)@.to_multiset() == old(items)@.to_multiset(),
{
    broadcast use vstd::seq_lib::group_to_multiset_ensures;
    broadcast use vstd::multiset::group_multiset_axioms;

    let ghost orig: Seq<String> = items@;
    let mut out: Vec<String> = Vec::new();
    proof {
        assert(out@.to_multiset().add(items@.to_multiset()) =~= orig.to_multiset());
    }
    while items.len() > 0
        invariant
            out@.len() + items@.len() == orig.len(),
            out@.to_multiset().add(items@.to_multiset()) == orig.to_multiset(),
        decreases items@.len(),
    {
        let j = rng.next_below(items.len());
        let ghost before: Seq<String> = items@;
        let x = items.remove(j);
        out.push(x);
        proof {
            broadcast use vstd::seq_lib::group_to_multiset_ensures;
            broadcast use vstd::multiset::group_multiset_axioms;

            assert(items@ == before.remove(j as int));
            assert(before.remove(j as int).to_multiset() =~= before.to_multiset().remove(x));
            assert(before.to_multiset().count(x) > 0) by {
                assert(before[j as int] == x);
                assert(before.contains(x));
            }
            assert(out@.to_multiset().add(items@.to_multiset()) =~= orig.to_multiset());
        }
    }
    proof {
        assert(items@.to_multiset().len() == 0);
        assert(out@.to_multiset().add(items@.to_multiset()) =~= out@.to_multiset());
    }
    *items = out;
}

/// Draws one card uniformly from a non-empty pool.
fn draw_one(pool: &Vec<Card>, rng: &mut Prng) -> (c: Card)
    requires
        pool@.len() > 0,
    ensures
        pool@.contains(c),
{
    let idx = rng.next_below(pool.len());
    pool[idx].clone()
}

/// Draws `count` cards from distinct positions of the pool, uniformly and
/// without replacement; fails exactly when the pool is too small. With
/// distinct pool names this is the same draw as resampling until the names
/// differ, and it cannot spin.
fn draw_without_replacement(pool: &Vec<Card>, count: usize, rng: &mut Prng) -> (r: Result<
    Vec<Card>,
    DraftError,
>)
    ensures
        r is Ok <==> count <= pool@.len(),
        r is Err ==> r->Err_0 is InsufficientPool,
        r is Ok ==> r->Ok_0@.len() == count as int,
        r is Ok ==> (forall|k: int| 0 <= k < count ==> pool@.contains(#[trigger] r->Ok_0@[k])),
        r is Ok && distinct_names(pool@) ==> distinct_names(r->Ok_0@),
{
    let n = pool.len();
    if count > n {
        return Err(DraftError::InsufficientPool);
    }
    let mut candidates: Vec<usize> = Vec::new();
    let mut i: usize = 0;
    while i < n
        invariant
            i <= n,
            candidates@.len() == i,
            forall|k: int| 0 <= k < i ==> (#[trigger] candidates@[k]) == k,
        decreases n - i,
    {
        candidates.push(i);
        i = i + 1;
    }
    let mut out: Vec<Card> = Vec::new();
    let ghost mut used: Seq<int> = Seq::empty();
    let mut t: usize = 0;
    while t < count
        invariant
            t <= count,
            count <= n,
            n == pool@.len(),
            out@.len() == t,
            used.len() == t,
            candidates@.len() == n - t,
            forall|k: int| 0 <= k < candidates@.len() ==> (#[trigger] candidates@[k]) < n,
            forall|k: int| 0 <= k < used.len() ==> 0 <= #[trigger] used[k] < n,
            forall|k: int| 0 <= k < t ==> out@[k] == pool@[#[trigger] used[k]],
            forall|k1: int, k2: int|
                0 <= k1 < k2 < candidates@.len() ==> candidates@[k1] != candidates@[k2],
            forall|k1: int, k2: int| 0 <= k1 < k2 < used.len() ==> used[k1] != used[k2],
            forall|k1: int, k2: int|
                0 <= k1 < used.len() && 0 <= k2 < candidates@.len()
                    ==> used[k1] != candidates@[k2] as int,
        decreases count - t,
    {
        let j = rng.next_below(candidates.len());
        let idx = candidates[j];
        out.push(pool[idx].clone());
        proof {
            used = used.push(idx as int);
        }
        candidates.swap_remove(j);
        t = t + 1;
    }
    proof {
        if distinct_names(pool@) {
            assert forall|i1: int, j1: int|
                0 <= i1 < j1 < out@.len() implies out@[i1].name@ != out@[j1].name@ by {
                assert(out@[i1] == pool@[used[i1]]);
                assert(out@[j1] == pool@[used[j1]]);
            }
        }
        assert forall|k: int| 0 <= k < count implies pool@.contains(#[trigger] out@[k]) by {
            assert(out@[k] == pool@[used[k]]);
        }
    }
    Ok(out)
}

/// A catalog entry fit to draft from: the set is present and every record
/// of its table is complete.
pub open spec fn set_ok(catalog: Catalog, id: Seq<char>) -> bool {
    &&& catalog.has_set(id)
    &&& forall|j: int|
        0 <= j < catalog.set_with_id(id).cards@.len()
            ==> complete(#[trigger] catalog.set_with_id(id).cards@[j])
}

/// A catalog entry whose pools can fill every slot of a pack.
pub open spec fn set_can_fill(catalog: Catalog, id: Seq<char>) -> bool {
    let cards = catalog.set_with_id(id).cards@;
    &&& (pool_model(cards, 'r').len() > 0 || pool_model(cards, 'm').len() > 0)
    &&& pool_model(cards, 'u').len() >= UNCOMMONS_PER_PACK as int
    &&& pool_model(cards, 'c').len() >= COMMONS_PER_PACK as int
}

/// A card of a fresh pool is unselected and leaves room for a bucket index.
pub proof fn lemma_contained_fresh(pool: Seq<Card>, c: Card)
    requires
        cards_fresh(pool),
        pool.contains(c),
    ensures
        c.mana_value < usize::MAX,
        !c.is_selected,
{
    let i = choose|i: int| 0 <= i < pool.len() && pool[i] == c;
    assert(pool[i].mana_value < usize::MAX);
}

/// Every card of a generated pack leaves room for a bucket index above its
/// mana value.
pub proof fn lemma_pack_cards_bounded(cards: Seq<Card>, pools: RarityPools)
    requires
        pack_cards_wf(cards, pools),
        pools.wf(),
    ensures
        forall|k: int| 0 <= k < cards.len() ==> (#[trigger] cards[k]).mana_value < usize::MAX,
{
    let u = UNCOMMONS_PER_PACK as int;
    let fixed = 1 + u + COMMONS_PER_PACK as int;
    assert forall|k: int| 0 <= k < cards.len() implies (#[trigger] cards[k]).mana_value
        < usize::MAX by {
        if k == 0 {
            if pools.mythics@.contains(cards[0]) {
                lemma_contained_fresh(pools.mythics@, cards[0]);
            } else {
                lemma_contained_fresh(pools.rares@, cards[0]);
            }
        } else if k < 1 + u {
            lemma_contained_fresh(pools.uncommons@, cards[k]);
        } else if k < fixed {
            lemma_contained_fresh(pools.commons@, cards[k]);
        } else {
            lemma_contained_fresh(pools.basics@, cards[k]);
        }
    }
}

/// Cards of pools with disjoint names never share a name.
proof fn lemma_cross_names(a: Seq<Card>, b: Seq<Card>, x: Card, y: Card)
    requires
        disjoint_names(a, b),
        a.contains(x),
        b.contains(y),
    ensures
        x.name@ != y.name@,
{
    let i = choose|i: int| 0 <= i < a.len() && a[i] == x;
    let j = choose|j: int| 0 <= j < b.len() && b[j] == y;
    assert(a[i].name@ != b[j].name@);
}

/// Appends a copy of every card of `src` to `dst`, in order.
fn append_cards(dst: &mut Vec<Card>, src: &Vec<Card>)
    ensures
        final(dst)@ == old(dst)@ + src@,
{
    let n = src.len();
    let mut k: usize = 0;
    proof {
        assert(old(dst)@ + src@.take(0) =~= old(dst)@);
    }
    while k < n
        invariant
            k <= n,
            n == src@.len(),
            dst@ == old(dst)@ + src@.take(k as int),
        decreases n - k,
    {
        dst.push(src[k].clone());
        proof {
            assert(old(dst)@ + src@.take(k as int + 1) =~= (old(dst)@ + src@.take(
                k as int,
            )).push(src@[k as int]));
        }
        k = k + 1;
    }
    proof {
        assert(src@.take(n as int) =~= src@);
    }
}

/// The pack generator. It owns the raw catalog, the plan of sets the
/// session will draft from, the rarity pools of the set the cursor stands
/// on, and the engine's randomness.
pub struct PackGenerator {
    pub catalog: Catalog,
    pub pools: RarityPools,
    pub plan: Vec<String>,
    pub pack_index: usize,
    pub rng: Prng,
}

impl PackGenerator {
    /// What holds of the generator between any two operations: the catalog
    /// keeps its shape, every planned set is fit to draft from, the cursor
    /// never leaves the plan, and while packs remain the pools are exactly
    /// the classification of the set the cursor stands on.
    pub open spec fn wf(self) -> bool {
        &&& self.catalog.wf()
        &&& self.pack_index <= self.plan@.len()
        &&& (forall|i: int|
            0 <= i < self.plan@.len() ==> set_ok(self.catalog, (#[trigger] self.plan@[i])@))
        &&& self.pools.wf()
        &&& (self.pack_index < self.plan@.len() ==> self.pools.models(
            self.catalog.set_with_id(self.plan@[self.pack_index as int]@).cards@,
        ))
    }

    /// A fresh generator over a catalog, with nothing planned yet.
    pub fn new(catalog: Catalog, seed: u64) -> (r: PackGenerator)
        requires
            catalog.wf(),
        ensures
            r.wf(),
            r.catalog == catalog,
            r.plan@.len() == 0,
            r.pack_index == 0,
    {
        PackGenerator {
            catalog,
            pools: RarityPools {
                mythics: Vec::new(),
                rares: Vec::new(),
                uncommons: Vec::new(),
                commons: Vec::new(),
                basics: Vec::new(),
            },
            plan: Vec::new(),
            pack_index: 0,
            rng: Prng::new(seed),
        }
    }

    /// Rebuilds the rarity pools for the set with this identifier,
    /// discarding the old pools.
    fn prepare_set(&mut self, id: &str)
        requires
            old(self).catalog.wf(),
            set_ok(old(self).catalog, id@),
        ensures
            final(self).catalog == old(self).catalog,
            final(self).plan == old(self).plan,
            final(self).pack_index == old(self).pack_index,
            final(self).rng == old(self).rng,
            final(self).pools.wf(),
            final(self).pools.models(old(self).catalog.set_with_id(id@).cards@),
    {
        match self.catalog.find_set(id) {
            Some(si) => {
                match classify(&self.catalog.sets[si]) {
                    Ok(pools) => {
                        self.pools = pools;
                    },
                    Err(_) => {
                        proof {
                            assert(false);
                        }
                    },
                }
            },
            None => {
                proof {
                    assert(false);
                }
            },
        }
    }

    /// Builds the plan of one session: every configured pair expanded to
    /// its count, plus `random_pack_count` entries drawn uniformly from the
    /// distinct configured identifiers, the whole shuffled; then prepares
    /// the pools of the first planned set. Fails, leaving the generator
    /// untouched, exactly when some configured set is absent from the
    /// catalog or classifies badly.
    pub fn initialize(
        &mut self,
        setup_pairs: &Vec<(String, usize)>,
        random_pack_count: usize,
    ) -> (r: Result<(), DraftError>)
        requires
            old(self).wf(),
            setup_pairs@.len() > 0,
            sum_counts(setup_pairs@) + random_pack_count as int >= 1,
            sum_counts(setup_pairs@) + random_pack_count as int <= usize::MAX as int,
        ensures
            final(self).catalog == old(self).catalog,
            r is Ok <==> (forall|i: int|
                0 <= i < setup_pairs@.len() ==> set_ok(
                    old(self).catalog,
                    (#[trigger] setup_pairs@[i]).0@,
                )),
            r is Ok ==> final(self).wf(),
            r is Ok ==> final(self).pack_index == 0,
            r is Ok ==> final(self).plan@.len() == sum_counts(setup_pairs@)
                + random_pack_count as int,
            r is Ok ==> (forall|k: int|
                0 <= k < final(self).plan@.len() ==> id_configured(
                    setup_pairs@,
                    (#[trigger] final(self).plan@[k])@,
                )),
            r is Err ==> *final(self) == *old(self),
            r is Err ==> exists|i: int|
                0 <= i < setup_pairs@.len() && !set_ok(
                    old(self).catalog,
                    (#[trigger] setup_pairs@[i]).0@,
                ) && (forall|p: int|
                    0 <= p < i ==> set_ok(old(self).catalog, (#[trigger] setup_pairs@[p]).0@))
                    && (if !old(self).catalog.has_set(setup_pairs@[i].0@) {
                    r->Err_0 is UnknownSet && r->Err_0->UnknownSet_0@ == setup_pairs@[i].0@
                } else {
                    r->Err_0 is Catalog
                }),
    {
        let n = setup_pairs.len();
        let mut v: usize = 0;
        while v < n
            invariant
                v <= n,
                n == setup_pairs@.len(),
                *self == *old(self),
                old(self).wf(),
                forall|p: int|
                    0 <= p < v ==> set_ok(self.catalog, (#[trigger] setup_pairs@[p]).0@),
            decreases n - v,
        {
            let id = &setup_pairs[v].0;
            match self.catalog.find_set(id.as_str()) {
                None => {
                    return Err(DraftError::UnknownSet(id.clone()));
                },
                Some(si) => {
                    match classify(&self.catalog.sets[si]) {
                        Ok(_) => {},
                        Err(e) => {
                            return Err(DraftError::Catalog(e));
                        },
                    }
                },
            }
            v = v + 1;
        }
        let mut set_list: Vec<String> = Vec::new();
        let mut sel: Vec<String> = Vec::new();
        let mut i: usize = 0;
        proof {
            assert(setup_pairs@.take(0) =~= Seq::<(String, usize)>::empty());
            lemma_sum_counts_take_bound(setup_pairs@, 0);
        }
        while i < n
            invariant
                i <= n,
                n == setup_pairs@.len(),
                *self == *old(self),
                set_list@.len() == sum_counts(setup_pairs@.take(i as int)),
                sum_counts(setup_pairs@.take(i as int)) <= sum_counts(setup_pairs@),
                sum_counts(setup_pairs@) + 0 <= usize::MAX as int,
                forall|k: int|
                    0 <= k < set_list@.len() ==> id_configured(
                        setup_pairs@,
                        (#[trigger] set_list@[k])@,
                    ),
                forall|k: int|
                    0 <= k < sel@.len() ==> id_configured(setup_pairs@, (#[trigger] sel@[k])@),
                i > 0 ==> sel@.len() > 0,
            decreases n - i,
        {
            let id = &setup_pairs[i].0;
            if !contains_id(&sel, id.as_str()) {
                sel.push(id.clone());
                proof {
                    assert((setup_pairs@[i as int]).0@ == id@);
                }
            }
            let cnt = setup_pairs[i].1;
            proof {
                lemma_sum_counts_step(setup_pairs@, i as int);
                lemma_sum_counts_take_bound(setup_pairs@, i as int + 1);
            }
            let mut c: usize = 0;
            while c < cnt
                invariant
                    c <= cnt,
                    i < n,
                    n == setup_pairs@.len(),
                    cnt == setup_pairs@[i as int].1,
                    set_list@.len() == sum_counts(setup_pairs@.take(i as int)) + c as int,
                    sum_counts(setup_pairs@.take(i as int)) + cnt as int <= sum_counts(
                        setup_pairs@,
                    ),
                    sum_counts(setup_pairs@) <= usize::MAX as int,
                    forall|k: int|
                        0 <= k < set_list@.len() ==> id_configured(
                            setup_pairs@,
                            (#[trigger] set_list@[k])@,
                        ),
                decreases cnt - c,
            {
                set_list.push(setup_pairs[i].0.clone());
                proof {
                    assert((setup_pairs@[i as int]).0@ == setup_pairs@[i as int].0@);
                }
                c = c + 1;
            }
            i = i + 1;
        }
        proof {
            assert(setup_pairs@.take(n as int) =~= setup_pairs@);
        }
        let mut t: usize = 0;
        while t < random_pack_count
            invariant
                t <= random_pack_count,
                sel@.len() > 0,
                set_list@.len() == sum_counts(setup_pairs@) + t as int,
                sum_counts(setup_pairs@) + random_pack_count as int <= usize::MAX as int,
                self.catalog == old(self).catalog,
                self.pools == old(self).pools,
                self.plan == old(self).plan,
                self.pack_index == old(self).pack_index,
                forall|k: int|
                    0 <= k < set_list@.len() ==> id_configured(
                        setup_pairs@,
                        (#[trigger] set_list@[k])@,
                    ),
                forall|k: int|
                    0 <= k < sel@.len() ==> id_configured(setup_pairs@, (#[trigger] sel@[k])@),
            decreases random_pack_count - t,
        {
            let j = self.rng.next_below(sel.len());
            set_list.push(sel[j].clone());
            t = t + 1;
        }
        let ghost pre_shuffle: Seq<String> = set_list@;
        shuffle(&mut set_list, &mut self.rng);
        proof {
            broadcast use vstd::seq_lib::group_to_multiset_ensures;

            assert forall|k: int|
                0 <= k < set_list@.len() implies id_configured(
                setup_pairs@,
                (#[trigger] set_list@[k])@,
            ) by {
                let x = set_list@[k];
                assert(set_list@.contains(x));
                assert(set_list@.to_multiset().count(x) > 0);
                assert(pre_shuffle.to_multiset().count(x) > 0);
                assert(pre_shuffle.contains(x));
                let m = choose|m: int| 0 <= m < pre_shuffle.len() && pre_shuffle[m] == x;
                assert(id_configured(setup_pairs@, (pre_shuffle[m])@));
            }
        }
        self.plan = set_list;
        self.pack_index = 0;
        let first = self.plan[0].clone();
        proof {
            let w = choose|w: int|
                0 <= w < setup_pairs@.len() && (#[trigger] setup_pairs@[w]).0@ == first@;
            assert(set_ok(self.catalog, first@));
        }
        self.prepare_set(first.as_str());
        Ok(())
    }

    /// Moves the cursor to the next pack of the plan, re-preparing the
    /// pools when the set changes. Beyond the end of the plan this is a
    /// no-op, leaving the cursor at the terminal index.
    pub fn advance(&mut self)
        requires
            old(self).wf(),
        ensures
            final(self).wf(),
            final(self).catalog == old(self).catalog,
            final(self).plan == old(self).plan,
            final(self).rng == old(self).rng,
            final(self).pack_index as int == if old(self).pack_index < old(self).plan@.len() {
                old(self).pack_index + 1
            } else {
                old(self).pack_index as int
            },
    {
        if self.pack_index >= self.plan.len() {
            return ;
        }
        let current = self.plan[self.pack_index].clone();
        self.pack_index = self.pack_index + 1;
        if self.pack_index < self.plan.len() {
            let next = self.plan[self.pack_index].clone();
            if !str_eq(current.as_str(), next.as_str()) {
                self.prepare_set(next.as_str());
            } else {
                proof {
                    assert(next@ == current@);
                }
            }
        }
    }

    /// Deals one pack from the prepared pools: one rare, promoted to a
    /// mythic one time in [`MYTHIC_PROMOTION_ODDS`] while both pools have
    /// cards, the uncommon and common slots drawn with distinct names, and
    /// one basic land exactly when the set has any. Fails, dealing nothing,
    /// exactly when a pool required for a slot cannot supply it.
    pub fn generate_pack(&mut self) -> (r: Result<Pack, DraftError>)
        requires
            old(self).wf(),
        ensures
            final(self).wf(),
            final(self).catalog == old(self).catalog,
            final(self).pools == old(self).pools,
            final(self).plan == old(self).plan,
            final(self).pack_index == old(self).pack_index,
            r is Ok <==> ((old(self).pools.rares@.len() > 0 || old(self).pools.mythics@.len() > 0)
                && old(self).pools.uncommons@.len() >= UNCOMMONS_PER_PACK as int
                && old(self).pools.commons@.len() >= COMMONS_PER_PACK as int),
            r is Err ==> r->Err_0 is InsufficientPool,
            r is Ok ==> pack_cards_wf(r->Ok_0.cards@, old(self).pools),
            r is Ok ==> r->Ok_0.picks_taken == 0,
            r is Ok && old(self).pools.mythics@.len() == 0 ==> old(self).pools.rares@.contains(
                r->Ok_0.cards@[0],
            ),
            r is Ok && old(self).pools.rares@.len() == 0 ==> old(self).pools.mythics@.contains(
                r->Ok_0.cards@[0],
            ),
    {
        let rare_card: Card;
        let ghost from_mythics: bool;
        if self.pools.mythics.len() > 0 && self.pools.rares.len() > 0 {
            if self.rng.next_below(MYTHIC_PROMOTION_ODDS) == 0 {
                rare_card = draw_one(&self.pools.mythics, &mut self.rng);
                proof {
                    from_mythics = true;
                }
            } else {
                rare_card = draw_one(&self.pools.rares, &mut self.rng);
                proof {
                    from_mythics = false;
                }
            }
        } else if self.pools.rares.len() > 0 {
            rare_card = draw_one(&self.pools.rares, &mut self.rng);
            proof {
                from_mythics = false;
            }
        } else if self.pools.mythics.len() > 0 {
            rare_card = draw_one(&self.pools.mythics, &mut self.rng);
            proof {
                from_mythics = true;
            }
        } else {
            return Err(DraftError::InsufficientPool);
        }
        let uncs = match draw_without_replacement(
            &self.pools.uncommons,
            UNCOMMONS_PER_PACK,
            &mut self.rng,
        ) {
            Ok(v) => v,
            Err(e) => {
                return Err(e);
            },
        };
        let coms = match draw_without_replacement(
            &self.pools.commons,
            COMMONS_PER_PACK,
            &mut self.rng,
        ) {
            Ok(v) => v,
            Err(e) => {
                return Err(e);
            },
        };
        let mut cards: Vec<Card> = Vec::new();
        cards.push(rare_card);
        append_cards(&mut cards, &uncs);
        append_cards(&mut cards, &coms);
        proof {
            let u = UNCOMMONS_PER_PACK as int;
            let fixed = 1 + u + COMMONS_PER_PACK as int;
            assert(cards@.len() == fixed);
            assert(cards@[0] == rare_card);
            assert(forall|p: int| 0 <= p < u ==> cards@[1 + p] == uncs@[p]);
            assert(forall|p: int| 0 <= p < COMMONS_PER_PACK as int ==> cards@[1 + u + p] == coms@[p]);
            assert forall|i1: int, j1: int|
                0 <= i1 < j1 < fixed implies cards@[i1].name@ != cards@[j1].name@ by {
                let pools = self.pools;
                if i1 == 0 {
                    if j1 < 1 + u {
                        if from_mythics {
                            lemma_cross_names(
                                pools.mythics@,
                                pools.uncommons@,
                                rare_card,
                                cards@[j1],
                            );
                        } else {
                            lemma_cross_names(
                                pools.rares@,
                                pools.uncommons@,
                                rare_card,
                                cards@[j1],
                            );
                        }
                    } else {
                        if from_mythics {
                            lemma_cross_names(
                                pools.mythics@,
                                pools.commons@,
                                rare_card,
                                cards@[j1],
                            );
                        } else {
                            lemma_cross_names(pools.rares@, pools.commons@, rare_card, cards@[j1]);
                        }
                    }
                } else if i1 < 1 + u {
                    if j1 < 1 + u {
                        assert(cards@[i1] == uncs@[i1 - 1] && cards@[j1] == uncs@[j1 - 1]);
                    } else {
                        lemma_cross_names(
                            pools.uncommons@,
                            pools.commons@,
                            cards@[i1],
                            cards@[j1],
                        );
                    }
                } else {
                    assert(cards@[i1] == coms@[i1 - 1 - u] && cards@[j1] == coms@[j1 - 1 - u]);
                }
            }
        }
        if self.pools.basics.len() > 0 {
            let basic = draw_one(&self.pools.basics, &mut self.rng);
            cards.push(basic);
        }
        Ok(Pack { cards, picks_taken: 0 })
    }
}

} // verus!
