//! The draft session state machine: setup configuration, pack progression,
//! pick selection, confirmation, and export.

use vstd::prelude::*;
use vstd::string::StringExecFns;

use crate::catalog::{Card, Catalog, SetTable};
use crate::deck::{deck_insert_model, deck_model, SortedDeck};
use crate::errors::DraftError;
use crate::generator::{
    id_configured, ids_contain, lemma_pack_cards_bounded, lemma_sum_counts_step,
    lemma_sum_counts_take_bound, pack_cards_wf, set_can_fill, set_ok, sum_counts, Pack,
    PackGenerator,
};
use crate::names::str_eq;
use crate::numfmt::{dec_digits, format_count};
use crate::{PICKS_PER_PACK, TOTAL_PACKS};

verus! {

/// The three states of a session.
#[derive(PartialEq, Eq, Structural, Clone, Copy, Debug)]
pub enum Phase {
    /// Collecting the list of `(set, pack count)` pairs to draft.
    Setup,
    /// A pack is open and picks are being taken.
    Drafting,
    /// Every pack has been picked; only exporting remains.
    Complete,
}

/// No two entries of the selection buffer name the same card.
pub open spec fn distinct_ids(s: Seq<String>) -> bool {
    forall|i: int, j: int| 0 <= i < j < s.len() ==> s[i]@ != s[j]@
}

/// Removing one configured pair takes away exactly its count.
pub proof fn lemma_sum_counts_remove(pairs: Seq<(String, usize)>, j: int)
    requires
        0 <= j < pairs.len(),
    ensures
        sum_counts(pairs.remove(j)) == sum_counts(pairs) - pairs[j].1 as int,
    decreases pairs.len(),
{
    if j == pairs.len() - 1 {
        assert(pairs.remove(j) =~= pairs.drop_last());
    } else {
        assert(pairs.remove(j).drop_last() =~= pairs.drop_last().remove(j));
        assert(pairs.remove(j).last() == pairs.last());
        lemma_sum_counts_remove(pairs.drop_last(), j);
    }
}

/// Replacing one configured pair swaps its count for the new one.
pub proof fn lemma_sum_counts_update(pairs: Seq<(String, usize)>, j: int, p: (String, usize))
    requires
        0 <= j < pairs.len(),
    ensures
        sum_counts(pairs.update(j, p)) == sum_counts(pairs) - pairs[j].1 as int + p.1 as int,
    decreases pairs.len(),
{
    if j == pairs.len() - 1 {
        assert(pairs.update(j, p).drop_last() =~= pairs.drop_last());
        assert(pairs.update(j, p).last() == p);
    } else {
        assert(pairs.update(j, p).drop_last() =~= pairs.drop_last().update(j, p));
        assert(pairs.update(j, p).last() == pairs.last());
        lemma_sum_counts_update(pairs.drop_last(), j, p);
    }
}

/// A pack total is never negative.
pub proof fn lemma_sum_counts_nonneg(pairs: Seq<(String, usize)>)
    ensures
        sum_counts(pairs) >= 0,
    decreases pairs.len(),
{
    if pairs.len() > 0 {
        lemma_sum_counts_nonneg(pairs.drop_last());
    }
}

/// No single configured pair asks for more than the whole total.
pub proof fn lemma_sum_counts_element(pairs: Seq<(String, usize)>, j: int)
    requires
        0 <= j < pairs.len(),
    ensures
        pairs[j].1 as int <= sum_counts(pairs),
    decreases pairs.len(),
{
    if j == pairs.len() - 1 {
        lemma_sum_counts_nonneg(pairs.drop_last());
    } else {
        lemma_sum_counts_element(pairs.drop_last(), j);
    }
}

/// The set identifiers offered for a configuration row: every catalog set,
/// in catalog order, that is not configured yet — keeping the one
/// identifier the row already shows.
pub open spec fn unused_model(
    sets: Seq<SetTable>,
    setup: Seq<(String, usize)>,
    keep: Seq<char>,
) -> Seq<String>
    decreases sets.len(),
{
    if sets.len() == 0 {
        Seq::empty()
    } else {
        let rest = unused_model(sets.drop_last(), setup, keep);
        let id = sets.last().set_id;
        if id@ == keep || !id_configured(setup, id@) {
            rest.push(id)
        } else {
            rest
        }
    }
}

/// One more catalog set offers its identifier exactly when it is kept or
/// not configured.
proof fn lemma_unused_model_step(
    sets: Seq<SetTable>,
    setup: Seq<(String, usize)>,
    keep: Seq<char>,
    i: int,
)
    requires
        0 <= i < sets.len(),
    ensures
        unused_model(sets.take(i + 1), setup, keep) == if sets[i].set_id@ == keep
            || !id_configured(setup, sets[i].set_id@) {
            unused_model(sets.take(i), setup, keep).push(sets[i].set_id)
        } else {
            unused_model(sets.take(i), setup, keep)
        },
{
    assert(sets.take(i + 1).drop_last() =~= sets.take(i));
    assert(sets.take(i + 1).last() == sets[i]);
}

/// Decides whether some configured pair carries this identifier.
fn setup_contains_id(setup: &Vec<(String, usize)>, id: &str) -> (r: bool)
    ensures
        r == id_configured(setup@, id@),
{
    let n = setup.len();
    let mut i: usize = 0;
    while i < n
        invariant
            i <= n,
            n == setup@.len(),
            forall|k: int| 0 <= k < i ==> (#[trigger] setup@[k]).0@ != id@,
        decreases n - i,
    {
        if str_eq(setup[i].0.as_str(), id) {
            return true;
        }
        i = i + 1;
    }
    false
}

/// Finds the first configured pair carrying this identifier.
fn find_setup_index(setup: &Vec<(String, usize)>, id: &str) -> (r: Option<usize>)
    ensures
        r is Some <==> id_configured(setup@, id@),
        r is Some ==> r->0 < setup@.len() && setup@[r->0 as int].0@ == id@ && (forall|k: int|
            0 <= k < r->0 ==> (#[trigger] setup@[k]).0@ != id@),
    {
    let n = setup.len();
    let mut i: usize = 0;
    while i < n
        invariant
            i <= n,
            n == setup@.len(),
            forall|k: int| 0 <= k < i ==> (#[trigger] setup@[k]).0@ != id@,
        decreases n - i,
    {
        if str_eq(setup[i].0.as_str(), id) {
            return Some(i);
        }
        i = i + 1;
    }
    None
}

/// The orchestrating state machine of one draft: from configuration
/// through pack-by-pack picking to the exported pool.
pub struct DraftSession {
    /// The pack generator, owning catalog, plan, pools and randomness.
    pub generator: PackGenerator,
    /// Which of the three states the session is in.
    pub phase: Phase,
    /// The configured `(set identifier, pack count)` pairs.
    pub setup: Vec<(String, usize)>,
    /// The open pack, while drafting.
    pub pack: Pack,
    /// The names of the currently selected cards of the open pack, oldest
    /// first.
    pub selection: Vec<String>,
    /// The accumulated picks.
    pub deck: SortedDeck,
    /// How many packs this session opens in all.
    pub total_packs: usize,
    /// How many picks each pack yields before the session advances.
    pub picks_per_pack: usize,
}

impl DraftSession {
    /// What holds of a session between any two commands.
    pub open spec fn wf(self) -> bool {
        &&& self.generator.wf()
        &&& self.total_packs >= 1
        &&& self.picks_per_pack >= 1
        &&& self.deck.wf()
        &&& distinct_ids(self.selection@)
        &&& self.selection@.len() <= self.picks_per_pack
        &&& (forall|k: int|
            0 <= k < self.pack.cards@.len() ==> (#[trigger] self.pack.cards@[k]).mana_value
                < usize::MAX)
        &&& match self.phase {
            Phase::Setup => {
                &&& self.setup@.len() >= 1
                &&& sum_counts(self.setup@) <= self.total_packs
                &&& self.selection@.len() == 0
            },
            Phase::Drafting => {
                &&& self.generator.plan@.len() == self.total_packs
                &&& self.generator.pack_index < self.total_packs
                &&& self.pack.picks_taken < self.picks_per_pack
            },
            Phase::Complete => {
                &&& self.generator.plan@.len() == self.total_packs
                &&& self.generator.pack_index == self.total_packs
                &&& self.selection@.len() == 0
            },
        }
    }

    /// A fresh session in `Setup`, configured with one pair asking the
    /// default set — the catalog's first — for the full pack total.
    pub fn new(catalog: Catalog, total_packs: usize, picks_per_pack: usize, seed: u64) -> (r:
        DraftSession)
        requires
            catalog.wf(),
            catalog.sets@.len() > 0,
            total_packs >= 1,
            picks_per_pack >= 1,
        ensures
            r.wf(),
            r.phase is Setup,
            r.total_packs == total_packs,
            r.picks_per_pack == picks_per_pack,
            r.generator.catalog == catalog,
            r.setup@.len() == 1,
            r.setup@[0].0@ == catalog.sets@[0].set_id@,
            r.setup@[0].1 == total_packs,
            r.deck.buckets@.len() == 0,
            r.selection@.len() == 0,
    {
        let default_id = catalog.sets[0].set_id.clone();
        let mut setup: Vec<(String, usize)> = Vec::new();
        setup.push((default_id, total_packs));
        proof {
            assert(sum_counts(setup@.drop_last()) == 0) by {
                assert(setup@.drop_last() =~= Seq::<(String, usize)>::empty());
            }
        }
        DraftSession {
            generator: PackGenerator::new(catalog, seed),
            phase: Phase::Setup,
            setup,
            pack: Pack { cards: Vec::new(), picks_taken: 0 },
            selection: Vec::new(),
            deck: SortedDeck::new(),
            total_packs,
            picks_per_pack,
        }
    }

    /// A fresh session with the fixed default configuration.
    pub fn with_defaults(catalog: Catalog, seed: u64) -> (r: DraftSession)
        requires
            catalog.wf(),
            catalog.sets@.len() > 0,
        ensures
            r.wf(),
            r.phase is Setup,
            r.total_packs == TOTAL_PACKS,
            r.picks_per_pack == PICKS_PER_PACK,
            r.generator.catalog == catalog,
    {
        DraftSession::new(catalog, TOTAL_PACKS, PICKS_PER_PACK, seed)
    }

    /// Packs asked for by the configured pairs so far.
    pub fn assigned_pack_count(&self) -> (r: usize)
        requires
            self.wf(),
            self.phase is Setup,
        ensures
            r as int == sum_counts(self.setup@),
    {
        let n = self.setup.len();
        let mut sum: usize = 0;
        let mut i: usize = 0;
        proof {
            assert(self.setup@.take(0) =~= Seq::<(String, usize)>::empty());
            lemma_sum_counts_take_bound(self.setup@, 0);
        }
        while i < n
            invariant
                i <= n,
                n == self.setup@.len(),
                sum as int == sum_counts(self.setup@.take(i as int)),
                sum_counts(self.setup@) <= self.total_packs as int,
                self.wf(),
                self.phase is Setup,
            decreases n - i,
        {
            proof {
                lemma_sum_counts_step(self.setup@, i as int);
                lemma_sum_counts_take_bound(self.setup@, i as int + 1);
            }
            sum = sum + self.setup[i].1;
            i = i + 1;
        }
        proof {
            assert(self.setup@.take(n as int) =~= self.setup@);
        }
        sum
    }

    /// Packs of the session total not yet assigned to a set; they are
    /// filled with randomly chosen configured sets at start.
    pub fn unassigned_pack_count(&self) -> (r: usize)
        requires
            self.wf(),
            self.phase is Setup,
        ensures
            r as int == self.total_packs - sum_counts(self.setup@),
    {
        let assigned = self.assigned_pack_count();
        self.total_packs - assigned
    }

    /// The set identifiers a configuration row may choose from: every
    /// catalog set not configured yet, keeping `keep` itself.
    pub fn unused_sets(&self, keep: &str) -> (r: Vec<String>)
        ensures
            r@ == unused_model(self.generator.catalog.sets@, self.setup@, keep@),
    {
        let sets = &self.generator.catalog.sets;
        let n = sets.len();
        let mut out: Vec<String> = Vec::new();
        let mut i: usize = 0;
        proof {
            assert(sets@.take(0) =~= Seq::<SetTable>::empty());
            assert(out@ =~= unused_model(sets@.take(0), self.setup@, keep@));
        }
        while i < n
            invariant
                i <= n,
                n == self.generator.catalog.sets@.len(),
                out@ == unused_model(
                    self.generator.catalog.sets@.take(i as int),
                    self.setup@,
                    keep@,
                ),
            decreases n - i,
        {
            proof {
                lemma_unused_model_step(self.generator.catalog.sets@, self.setup@, keep@, i as int);
            }
            let id = &self.generator.catalog.sets[i].set_id;
            if str_eq(id.as_str(), keep) || !setup_contains_id(&self.setup, id.as_str()) {
                out.push(id.clone());
            }
            i = i + 1;
        }
        proof {
            assert(self.generator.catalog.sets@.take(n as int) =~= self.generator.catalog.sets@);
        }
        out
    }

    /// Appends a configuration row: the first set identifier not in use
    /// yet, asking for no packs. A no-op when every set is configured.
    pub fn add_set(&mut self)
        requires
            old(self).wf(),
            old(self).phase is Setup,
        ensures
            final(self).wf(),
            final(self).phase is Setup,
            final(self).generator == old(self).generator,
            final(self).deck == old(self).deck,
            final(self).total_packs == old(self).total_packs,
            final(self).picks_per_pack == old(self).picks_per_pack,
            ({
                let unused = unused_model(
                    old(self).generator.catalog.sets@,
                    old(self).setup@,
                    Seq::<char>::empty(),
                );
                if unused.len() > 0 {
                    final(self).setup@ == old(self).setup@.push((unused[0], 0usize))
                } else {
                    final(self).setup@ == old(self).setup@
                }
            }),
    {
        let unused = self.unused_sets("");
        proof {
            reveal_strlit("");
            assert(""@ =~= Seq::<char>::empty());
            assert(unused@ == unused_model(
                self.generator.catalog.sets@,
                self.setup@,
                Seq::<char>::empty(),
            ));
        }
        if unused.len() > 0 {
            let first = unused[0].clone();
            let pair = (first, 0usize);
            proof {
                lemma_sum_counts_step(self.setup@.push(pair), self.setup@.len() as int);
                assert(self.setup@.push(pair).take(self.setup@.len() as int) =~= self.setup@);
                assert(self.setup@.push(pair).take(self.setup@.len() as int + 1) =~= self.setup@.push(
                    pair,
                ));
            }
            self.setup.push(pair);
        }
    }

    /// Takes a configuration row out, matching by set identifier. Refused —
    /// a no-op — while only one row remains, to keep the plan non-empty;
    /// likewise a no-op when no row matches.
    pub fn remove_set(&mut self, set_id: &str)
        requires
            old(self).wf(),
            old(self).phase is Setup,
        ensures
            final(self).wf(),
            final(self).phase is Setup,
            final(self).generator == old(self).generator,
            final(self).deck == old(self).deck,
            final(self).total_packs == old(self).total_packs,
            final(self).picks_per_pack == old(self).picks_per_pack,
            old(self).setup@.len() <= 1 ==> final(self).setup@ == old(self).setup@,
            old(self).setup@.len() > 1 && !id_configured(old(self).setup@, set_id@)
                ==> final(self).setup@ == old(self).setup@,
            old(self).setup@.len() > 1 && id_configured(old(self).setup@, set_id@) ==> exists|j: int|
                0 <= j < old(self).setup@.len() && (#[trigger] old(self).setup@[j]).0@ == set_id@
                    && (forall|k: int| 0 <= k < j ==> (#[trigger] old(self).setup@[k]).0@ != set_id@)
                    && final(self).setup@ == old(self).setup@.remove(j),
    {
        if self.setup.len() <= 1 {
            return ;
        }
        match find_setup_index(&self.setup, set_id) {
            None => {},
            Some(j) => {
                proof {
                    lemma_sum_counts_remove(self.setup@, j as int);
                }
                self.setup.remove(j);
            },
        }
    }

    /// Swaps the set identifier of the first row matching `old_id` for
    /// `new_id`, keeping its pack count. A no-op when no row matches.
    pub fn change_set(&mut self, old_id: &str, new_id: &str)
        requires
            old(self).wf(),
            old(self).phase is Setup,
        ensures
            final(self).wf(),
            final(self).phase is Setup,
            final(self).generator == old(self).generator,
            final(self).deck == old(self).deck,
            final(self).total_packs == old(self).total_packs,
            final(self).picks_per_pack == old(self).picks_per_pack,
            !id_configured(old(self).setup@, old_id@) ==> final(self).setup@ == old(self).setup@,
            id_configured(old(self).setup@, old_id@) ==> exists|j: int|
                0 <= j < old(self).setup@.len() && (#[trigger] old(self).setup@[j]).0@ == old_id@
                    && (forall|k: int| 0 <= k < j ==> (#[trigger] old(self).setup@[k]).0@ != old_id@)
                    && final(self).setup@.len() == old(self).setup@.len()
                    && final(self).setup@[j].0@ == new_id@
                    && final(self).setup@[j].1 == old(self).setup@[j].1
                    && (forall|k: int|
                    0 <= k < old(self).setup@.len() && k != j ==> final(self).setup@[k] == old(
                        self,
                    ).setup@[k]),
    {
        match find_setup_index(&self.setup, old_id) {
            None => {},
            Some(j) => {
                let count = self.setup[j].1;
                let pair = (String::from_str(new_id), count);
                proof {
                    lemma_sum_counts_update(self.setup@, j as int, pair);
                }
                self.setup[j] = pair;
            },
        }
    }

    /// Sets the pack count of the first row matching `set_id`. A no-op
    /// when no row matches, and refused — a no-op — when the new count
    /// would push the configured total over the session's pack total.
    pub fn change_pack_count(&mut self, set_id: &str, count: usize)
        requires
            old(self).wf(),
            old(self).phase is Setup,
        ensures
            final(self).wf(),
            final(self).phase is Setup,
            final(self).generator == old(self).generator,
            final(self).deck == old(self).deck,
            final(self).total_packs == old(self).total_packs,
            final(self).picks_per_pack == old(self).picks_per_pack,
            !id_configured(old(self).setup@, set_id@) ==> final(self).setup@ == old(self).setup@,
            id_configured(old(self).setup@, set_id@) ==> exists|j: int|
                0 <= j < old(self).setup@.len() && (#[trigger] old(self).setup@[j]).0@ == set_id@
                    && (forall|k: int| 0 <= k < j ==> (#[trigger] old(self).setup@[k]).0@ != set_id@)
                    && (if sum_counts(old(self).setup@) - old(self).setup@[j].1 as int
                        + count as int <= old(self).total_packs as int {
                        final(self).setup@ == old(self).setup@.update(
                            j,
                            (old(self).setup@[j].0, count),
                        )
                    } else {
                        final(self).setup@ == old(self).setup@
                    }),
    {
        match find_setup_index(&self.setup, set_id) {
            None => {},
            Some(j) => {
                let assigned = self.assigned_pack_count();
                let current = self.setup[j].1;
                proof {
                    lemma_sum_counts_element(self.setup@, j as int);
                }
                // the new total fits exactly when count <= unassigned + current
                let headroom = self.total_packs - assigned + current;
                if count <= headroom {
                    let name = self.setup[j].0.clone();
                    let pair = (name, count);
                    proof {
                        lemma_sum_counts_update(self.setup@, j as int, pair);
                        assert(pair.0 == self.setup@[j as int].0);
                    }
                    self.setup[j] = pair;
                }
            },
        }
    }
    /// Leaves `Setup` for `Drafting`: builds the session's plan — the
    /// configured pairs plus the unassigned remainder filled with random
    /// configured sets — and opens the first pack. Fails, staying in
    /// `Setup`, when a configured set is missing or malformed, or the
    /// first planned set cannot fill a pack.
    pub fn start(&mut self) -> (r: Result<(), DraftError>)
        requires
            old(self).wf(),
            old(self).phase is Setup,
        ensures
            final(self).wf(),
            final(self).setup == old(self).setup,
            final(self).deck == old(self).deck,
            final(self).total_packs == old(self).total_packs,
            final(self).picks_per_pack == old(self).picks_per_pack,
            final(self).generator.catalog == old(self).generator.catalog,
            r is Err ==> final(self).phase is Setup && final(self).selection == old(self).selection
                && final(self).pack == old(self).pack,
            r is Ok ==> final(self).phase is Drafting,
            r is Ok ==> final(self).generator.plan@.len() == old(self).total_packs as int,
            r is Ok ==> final(self).generator.pack_index == 0,
            r is Ok ==> (forall|k: int|
                0 <= k < final(self).generator.plan@.len() ==> id_configured(
                    old(self).setup@,
                    (#[trigger] final(self).generator.plan@[k])@,
                )),
            r is Ok ==> pack_cards_wf(final(self).pack.cards@, final(self).generator.pools),
            r is Ok ==> final(self).pack.picks_taken == 0,
            r is Ok ==> final(self).selection@.len() == 0,
            (forall|i: int|
                0 <= i < old(self).setup@.len() ==> set_ok(
                    old(self).generator.catalog,
                    (#[trigger] old(self).setup@[i]).0@,
                ) && set_can_fill(old(self).generator.catalog, old(self).setup@[i].0@)) ==> r is Ok,
    {
        let unassigned = self.unassigned_pack_count();
        match self.generator.initialize(&self.setup, unassigned) {
            Err(e) => Err(e),
            Ok(()) => {
                match self.generator.generate_pack() {
                    Err(e) => Err(e),
                    Ok(p) => {
                        proof {
                            lemma_pack_cards_bounded(p.cards@, self.generator.pools);
                        }
                        self.pack = p;
                        self.phase = Phase::Drafting;
                        Ok(())
                    },
                }
            },
        }
    }
}

/// The card with its selection flag set this way.
pub open spec fn with_selected(c: Card, v: bool) -> Card {
    Card {
        name: c.name,
        mana_value: c.mana_value,
        display_reference: c.display_reference,
        is_selected: v,
    }
}

/// Sets the selection flag of every card of the pack carrying this name.
fn set_card_selected(cards: &mut Vec<Card>, name: &str, value: bool)
    ensures
        final(cards)@.len() == old(cards)@.len(),
        forall|k: int|
            0 <= k < old(cards)@.len() ==> final(cards)@[k] == (if old(cards)@[k].name@ == name@ {
                with_selected(old(cards)@[k], value)
            } else {
                old(cards)@[k]
            }),
{
    let n = cards.len();
    let mut k: usize = 0;
    while k < n
        invariant
            k <= n,
            n == cards@.len(),
            cards@.len() == old(cards)@.len(),
            forall|p: int|
                0 <= p < k ==> cards@[p] == (if old(cards)@[p].name@ == name@ {
                    with_selected(old(cards)@[p], value)
                } else {
                    old(cards)@[p]
                }),
            forall|p: int| k <= p < n ==> cards@[p] == old(cards)@[p],
        decreases n - k,
    {
        if str_eq(cards[k].name.as_str(), name) {
            let c = cards[k].clone();
            cards[k] = Card {
                name: c.name,
                mana_value: c.mana_value,
                display_reference: c.display_reference,
                is_selected: value,
            };
        }
        k = k + 1;
    }
}

impl DraftSession {
    /// Selects a card of the open pack by name. A name already selected is
    /// a no-op; while the buffer is full the oldest selection is dropped
    /// and deselected; the card of the new name is marked selected.
    pub fn select(&mut self, name: &str)
        requires
            old(self).wf(),
            old(self).phase is Drafting,
        ensures
            final(self).wf(),
            final(self).phase is Drafting,
            final(self).generator == old(self).generator,
            final(self).deck == old(self).deck,
            final(self).setup == old(self).setup,
            final(self).total_packs == old(self).total_packs,
            final(self).picks_per_pack == old(self).picks_per_pack,
            final(self).pack.picks_taken == old(self).pack.picks_taken,
            ids_contain(old(self).selection@, name@) ==> final(self).selection
                == old(self).selection && final(self).pack == old(self).pack,
            (!ids_contain(old(self).selection@, name@) && old(self).selection@.len() < old(
                self,
            ).picks_per_pack) ==> ({
                &&& final(self).selection@.len() == old(self).selection@.len() + 1
                &&& final(self).selection@.last()@ == name@
                &&& (forall|k: int|
                    0 <= k < old(self).selection@.len() ==> final(self).selection@[k] == old(
                        self,
                    ).selection@[k])
                &&& final(self).pack.cards@.len() == old(self).pack.cards@.len()
                &&& (forall|k: int|
                    0 <= k < old(self).pack.cards@.len() ==> final(self).pack.cards@[k] == (
                    if old(self).pack.cards@[k].name@ == name@ {
                        with_selected(old(self).pack.cards@[k], true)
                    } else {
                        old(self).pack.cards@[k]
                    }))
            }),
            (!ids_contain(old(self).selection@, name@) && old(self).selection@.len() == old(
                self,
            ).picks_per_pack) ==> ({
                let evicted = old(self).selection@[0]@;
                &&& final(self).selection@.len() == old(self).selection@.len()
                &&& final(self).selection@.last()@ == name@
                &&& (forall|k: int|
                    0 <= k < old(self).selection@.len() - 1 ==> final(self).selection@[k] == old(
                        self,
                    ).selection@[k + 1])
                &&& final(self).pack.cards@.len() == old(self).pack.cards@.len()
                &&& (forall|k: int|
                    0 <= k < old(self).pack.cards@.len() ==> final(self).pack.cards@[k] == (
                    if old(self).pack.cards@[k].name@ == name@ {
                        with_selected(old(self).pack.cards@[k], true)
                    } else if old(self).pack.cards@[k].name@ == evicted {
                        with_selected(old(self).pack.cards@[k], false)
                    } else {
                        old(self).pack.cards@[k]
                    }))
            }),
    {
        if crate::generator::contains_id(&self.selection, name) {
            return ;
        }
        if self.selection.len() < self.picks_per_pack {
            set_card_selected(&mut self.pack.cards, name, true);
            self.selection.push(String::from_str(name));
        } else {
            let oldest = self.selection.remove(0);
            let ghost mid: Seq<Card> = self.pack.cards@;
            set_card_selected(&mut self.pack.cards, name, true);
            set_card_selected(&mut self.pack.cards, oldest.as_str(), false);
            self.selection.push(String::from_str(name));
            proof {
                assert(oldest@ != name@);
            }
        }
    }
}

/// The position of the first pack card carrying this name, or `-1` when
/// none does.
pub open spec fn find_by_name(cards: Seq<Card>, name: Seq<char>) -> int
    decreases cards.len(),
{
    if cards.len() == 0 {
        -1
    } else if cards[0].name@ == name {
        0
    } else if find_by_name(cards.skip(1), name) == -1 {
        -1
    } else {
        1 + find_by_name(cards.skip(1), name)
    }
}

/// A scan that stops at a matching card finds the first position.
proof fn lemma_find_by_name_at(cards: Seq<Card>, name: Seq<char>, i: int)
    requires
        0 <= i < cards.len(),
        cards[i].name@ == name,
        forall|k: int| 0 <= k < i ==> (#[trigger] cards[k]).name@ != name,
    ensures
        find_by_name(cards, name) == i,
    decreases cards.len(),
{
    if i > 0 {
        assert(forall|k: int| 0 <= k < i - 1 ==> cards.skip(1)[k] == cards[k + 1]);
        assert(cards.skip(1)[i - 1] == cards[i]);
        lemma_find_by_name_at(cards.skip(1), name, i - 1);
    }
}

/// A scan that finds nothing means no card carries the name.
proof fn lemma_find_by_name_none(cards: Seq<Card>, name: Seq<char>)
    requires
        forall|k: int| 0 <= k < cards.len() ==> (#[trigger] cards[k]).name@ != name,
    ensures
        find_by_name(cards, name) == -1,
    decreases cards.len(),
{
    if cards.len() > 0 {
        assert(forall|k: int| 0 <= k < cards.len() - 1 ==> cards.skip(1)[k] == cards[k + 1]);
        lemma_find_by_name_none(cards.skip(1), name);
    }
}

/// One confirmation step: the pack, pick count and deck that result from
/// taking the named pick, once the pick quota is reached or no pack card
/// carries the name, nothing changes.
pub open spec fn pick_step(
    cards: Seq<Card>,
    picks: int,
    dm: Seq<Seq<Card>>,
    name: Seq<char>,
    quota: int,
) -> (Seq<Card>, int, Seq<Seq<Card>>) {
    let j = find_by_name(cards, name);
    if picks >= quota || j == -1 {
        (cards, picks, dm)
    } else {
        (cards.remove(j), picks + 1, deck_insert_model(dm, cards[j]))
    }
}

/// The confirmation of a whole selection buffer, oldest name first.
pub open spec fn picks_fold(
    cards: Seq<Card>,
    picks: int,
    dm: Seq<Seq<Card>>,
    names: Seq<Seq<char>>,
    quota: int,
) -> (Seq<Card>, int, Seq<Seq<Card>>)
    decreases names.len(),
{
    if names.len() == 0 {
        (cards, picks, dm)
    } else {
        let prev = picks_fold(cards, picks, dm, names.drop_last(), quota);
        pick_step(prev.0, prev.1, prev.2, names.last(), quota)
    }
}

/// Confirming one more name folds one more step.
proof fn lemma_picks_fold_step(
    cards: Seq<Card>,
    picks: int,
    dm: Seq<Seq<Card>>,
    names: Seq<Seq<char>>,
    quota: int,
    i: int,
)
    requires
        0 <= i < names.len(),
    ensures
        picks_fold(cards, picks, dm, names.take(i + 1), quota) == ({
            let prev = picks_fold(cards, picks, dm, names.take(i), quota);
            pick_step(prev.0, prev.1, prev.2, names[i], quota)
        }),
{
    assert(names.take(i + 1).drop_last() =~= names.take(i));
    assert(names.take(i + 1).last() == names[i]);
}

/// The names of the selection buffer, oldest first.
pub open spec fn sel_names(s: Seq<String>) -> Seq<Seq<char>> {
    s.map_values(|x: String| x@)
}

/// Takes the first pack card carrying this name out of the pack and into
/// the deck, counting the pick; with no such card, a benign no-op.
fn pick_one(pack: &mut Pack, deck: &mut SortedDeck, name: &str)
    requires
        old(deck).wf(),
        old(pack).picks_taken < usize::MAX,
        forall|k: int|
            0 <= k < old(pack).cards@.len() ==> (#[trigger] old(pack).cards@[k]).mana_value
                < usize::MAX,
    ensures
        final(deck).wf(),
        final(pack).cards@.len() <= old(pack).cards@.len(),
        forall|k: int|
            0 <= k < final(pack).cards@.len() ==> (#[trigger] final(pack).cards@[k]).mana_value
                < usize::MAX,
        ({
            let j = find_by_name(old(pack).cards@, name@);
            if j == -1 {
                *final(pack) == *old(pack) && *final(deck) == *old(deck)
            } else {
                &&& final(pack).cards@ == old(pack).cards@.remove(j)
                &&& final(pack).picks_taken == old(pack).picks_taken + 1
                &&& deck_model(*final(deck)) == deck_insert_model(
                    deck_model(*old(deck)),
                    old(pack).cards@[j],
                )
            }
        }),
{
    let n = pack.cards.len();
    let mut i: usize = 0;
    loop
        invariant
            i <= n,
            n == pack.cards@.len(),
            forall|k: int| 0 <= k < i ==> (#[trigger] pack.cards@[k]).name@ != name@,
        ensures
            i <= n,
            n == pack.cards@.len(),
            forall|k: int| 0 <= k < i ==> (#[trigger] pack.cards@[k]).name@ != name@,
            i < n ==> pack.cards@[i as int].name@ == name@,
        decreases n - i,
    {
        if i >= n {
            break ;
        }
        if str_eq(pack.cards[i].name.as_str(), name) {
            break ;
        }
        i = i + 1;
    }
    if i < n {
        proof {
            lemma_find_by_name_at(pack.cards@, name@, i as int);
        }
        let card = pack.cards.remove(i);
        deck.insert(card);
        pack.picks_taken = pack.picks_taken + 1;
    } else {
        proof {
            lemma_find_by_name_none(pack.cards@, name@);
        }
    }
}

impl DraftSession {
    /// Confirms the selected picks, oldest first: each selected name still
    /// in the open pack moves into the sorted deck and counts one pick,
    /// and the buffer is cleared. Once the quota is reached the session
    /// moves past the pack: it opens the next one, or completes after the
    /// last. Fails exactly when the next pack's set cannot fill it; the
    /// picks taken so far keep their effect.
    pub fn confirm(&mut self) -> (r: Result<(), DraftError>)
        requires
            old(self).wf(),
            old(self).phase is Drafting,
        ensures
            final(self).wf(),
            final(self).selection@.len() == 0,
            final(self).pack.picks_taken <= final(self).picks_per_pack,
            final(self).setup == old(self).setup,
            final(self).total_packs == old(self).total_packs,
            final(self).picks_per_pack == old(self).picks_per_pack,
            final(self).generator.catalog == old(self).generator.catalog,
            final(self).generator.plan == old(self).generator.plan,
            r is Err ==> r->Err_0 is InsufficientPool,
            ({
                let f = picks_fold(
                    old(self).pack.cards@,
                    old(self).pack.picks_taken as int,
                    deck_model(old(self).deck),
                    sel_names(old(self).selection@),
                    old(self).picks_per_pack as int,
                );
                &&& deck_model(final(self).deck) == f.2
                &&& (f.1 < old(self).picks_per_pack as int ==> ({
                    &&& r is Ok
                    &&& final(self).phase is Drafting
                    &&& final(self).pack.cards@ == f.0
                    &&& final(self).pack.picks_taken as int == f.1
                    &&& final(self).generator.pack_index == old(self).generator.pack_index
                }))
                &&& (f.1 == old(self).picks_per_pack as int
                    && old(self).generator.pack_index + 1 < old(self).total_packs as int
                    && set_can_fill(
                    old(self).generator.catalog,
                    old(self).generator.plan@[old(self).generator.pack_index + 1]@,
                ) ==> r is Ok)
                &&& (f.1 == old(self).picks_per_pack as int ==> ({
                    &&& final(self).generator.pack_index == old(self).generator.pack_index + 1
                    &&& (old(self).generator.pack_index + 1 == old(self).total_packs as int ==> (
                    r is Ok && final(self).phase is Complete && final(self).pack.cards@.len()
                        == 0))
                    &&& (old(self).generator.pack_index + 1 < old(self).total_packs as int ==> (
                    final(self).phase is Drafting && (r is Ok ==> (pack_cards_wf(
                        final(self).pack.cards@,
                        final(self).generator.pools,
                    ) && final(self).pack.picks_taken == 0)) && (r is Err
                        ==> final(self).pack.cards@.len() == 0)))
                }))
            }),
    {
        let nsel = self.selection.len();
        let ghost names: Seq<Seq<char>> = sel_names(self.selection@);
        let ghost cards0: Seq<Card> = self.pack.cards@;
        let ghost picks0: int = self.pack.picks_taken as int;
        let ghost dm0: Seq<Seq<Card>> = deck_model(self.deck);
        let ghost quota: int = self.picks_per_pack as int;
        proof {
            assert(names.take(0) =~= Seq::<Seq<char>>::empty());
        }
        let mut si: usize = 0;
        while si < nsel
            invariant
                si <= nsel,
                nsel == self.selection@.len(),
                self.selection == old(self).selection,
                self.generator == old(self).generator,
                self.setup == old(self).setup,
                self.phase == old(self).phase,
                self.total_packs == old(self).total_packs,
                self.picks_per_pack == old(self).picks_per_pack,
                names == sel_names(self.selection@),
                quota == self.picks_per_pack as int,
                self.deck.wf(),
                self.pack.picks_taken <= self.picks_per_pack,
                forall|k: int|
                    0 <= k < self.pack.cards@.len() ==> (#[trigger] self.pack.cards@[k]).mana_value
                        < usize::MAX,
                (self.pack.cards@, self.pack.picks_taken as int, deck_model(self.deck))
                    == picks_fold(cards0, picks0, dm0, names.take(si as int), quota),
            decreases nsel - si,
        {
            proof {
                lemma_picks_fold_step(cards0, picks0, dm0, names, quota, si as int);
                assert(names[si as int] == self.selection@[si as int]@);
            }
            let name = self.selection[si].clone();
            if self.pack.picks_taken < self.picks_per_pack {
                pick_one(&mut self.pack, &mut self.deck, name.as_str());
            }
            si = si + 1;
        }
        proof {
            assert(names.take(nsel as int) =~= names);
        }
        self.selection.clear();
        if self.pack.picks_taken >= self.picks_per_pack {
            self.generator.advance();
            if self.generator.pack_index < self.total_packs {
                match self.generator.generate_pack() {
                    Ok(p) => {
                        proof {
                            lemma_pack_cards_bounded(p.cards@, self.generator.pools);
                        }
                        self.pack = p;
                    },
                    Err(e) => {
                        self.pack = Pack { cards: Vec::new(), picks_taken: 0 };
                        return Err(e);
                    },
                }
            } else {
                self.pack = Pack { cards: Vec::new(), picks_taken: 0 };
                self.phase = Phase::Complete;
            }
        }
        Ok(())
    }
}

/// The names of a card sequence, in order.
pub open spec fn names_of(cards: Seq<Card>) -> Seq<Seq<char>> {
    cards.map_values(|c: Card| c.name@)
}

/// Every picked card's name, bucket by bucket in deck order.
pub open spec fn deck_names(dm: Seq<Seq<Card>>) -> Seq<Seq<char>>
    decreases dm.len(),
{
    if dm.len() == 0 {
        Seq::empty()
    } else {
        deck_names(dm.drop_last()) + names_of(dm.last())
    }
}

/// How many entries of the list read this way.
pub open spec fn count_of(names: Seq<Seq<char>>, name: Seq<char>) -> int
    decreases names.len(),
{
    if names.len() == 0 {
        0
    } else {
        count_of(names.drop_last(), name) + (if names.last() == name {
            1int
        } else {
            0int
        })
    }
}

/// The distinct names of the list, each at its first occurrence.
pub open spec fn distinct_in_order(names: Seq<Seq<char>>) -> Seq<Seq<char>>
    decreases names.len(),
{
    if names.len() == 0 {
        Seq::empty()
    } else {
        let rest = distinct_in_order(names.drop_last());
        if rest.contains(names.last()) {
            rest
        } else {
            rest.push(names.last())
        }
    }
}

/// One line per name — its count in the whole list, a space, the name —
/// joined by newlines with no trailing delimiter.
pub open spec fn render_lines(names: Seq<Seq<char>>, all: Seq<Seq<char>>) -> Seq<char>
    decreases names.len(),
{
    if names.len() == 0 {
        Seq::empty()
    } else {
        let line = dec_digits(count_of(all, names.last())) + seq![' '] + names.last();
        if names.len() == 1 {
            line
        } else {
            render_lines(names.drop_last(), all) + seq!['\n'] + line
        }
    }
}

/// The exported text of a deck: one line per distinct picked name with its
/// exact count, in first-occurrence order.
pub open spec fn export_model(dm: Seq<Seq<Card>>) -> Seq<char> {
    render_lines(distinct_in_order(deck_names(dm)), deck_names(dm))
}

/// A name occurs no more often than the list is long.
proof fn lemma_count_of_le(names: Seq<Seq<char>>, name: Seq<char>)
    ensures
        0 <= count_of(names, name) <= names.len(),
    decreases names.len(),
{
    if names.len() > 0 {
        lemma_count_of_le(names.drop_last(), name);
    }
}

/// One more bucket contributes exactly its names.
proof fn lemma_deck_names_step(dm: Seq<Seq<Card>>, b: int)
    requires
        0 <= b < dm.len(),
    ensures
        deck_names(dm.take(b + 1)) == deck_names(dm.take(b)) + names_of(dm[b]),
{
    assert(dm.take(b + 1).drop_last() =~= dm.take(b));
    assert(dm.take(b + 1).last() == dm[b]);
}

/// A prefix of the deck holds no more names than the whole, with room for
/// the bucket being walked.
proof fn lemma_deck_names_budget(dm: Seq<Seq<Card>>, b: int)
    requires
        0 <= b <= dm.len(),
    ensures
        deck_names(dm.take(b)).len() <= deck_names(dm).len(),
        b < dm.len() ==> deck_names(dm.take(b)).len() + dm[b].len() <= deck_names(dm).len(),
    decreases dm.len() - b,
{
    if b == dm.len() {
        assert(dm.take(b) =~= dm);
    } else {
        lemma_deck_names_step(dm, b);
        lemma_deck_names_budget(dm, b + 1);
    }
}

/// The distinct names of a list are pairwise distinct.
proof fn lemma_distinct_in_order_nodup(names: Seq<Seq<char>>)
    ensures
        forall|i: int, j: int|
            0 <= i < j < distinct_in_order(names).len() ==> distinct_in_order(names)[i]
                != distinct_in_order(names)[j],
    decreases names.len(),
{
    if names.len() > 0 {
        lemma_distinct_in_order_nodup(names.drop_last());
        let rest = distinct_in_order(names.drop_last());
        if !rest.contains(names.last()) {
            assert forall|i: int, j: int|
                0 <= i < j < rest.push(names.last()).len() implies rest.push(names.last())[i]
                != rest.push(names.last())[j] by {
                if j == rest.len() {
                    assert(!rest.contains(rest[i]) == false);
                }
            }
        }
    }
}

/// One more distinct name appends one more line.
proof fn lemma_render_step(dn: Seq<Seq<char>>, all: Seq<Seq<char>>, p: int)
    requires
        0 <= p < dn.len(),
    ensures
        render_lines(dn.take(p + 1), all) == if p == 0 {
            dec_digits(count_of(all, dn[p])) + seq![' '] + dn[p]
        } else {
            render_lines(dn.take(p), all) + seq!['\n'] + (dec_digits(count_of(all, dn[p]))
                + seq![' '] + dn[p])
        },
{
    assert(dn.take(p + 1).drop_last() =~= dn.take(p));
    assert(dn.take(p + 1).last() == dn[p]);
}

/// Finds the position of this identifier in the list.
fn find_id(ids: &Vec<String>, id: &str) -> (r: Option<usize>)
    ensures
        r is Some ==> r->0 < ids@.len() && ids@[r->0 as int]@ == id@,
        r is None ==> forall|k: int| 0 <= k < ids@.len() ==> (#[trigger] ids@[k])@ != id@,
{
    let n = ids.len();
    let mut i: usize = 0;
    while i < n
        invariant
            i <= n,
            n == ids@.len(),
            forall|k: int| 0 <= k < i ==> (#[trigger] ids@[k])@ != id@,
        decreases n - i,
    {
        if str_eq(ids[i].as_str(), id) {
            return Some(i);
        }
        i = i + 1;
    }
    None
}

impl DraftSession {
    /// Serializes the picked pool: one line per distinct card name, in the
    /// order the deck lists them, reading `<count> <name>`, newline-joined
    /// with no trailing delimiter.
    pub fn export(&self) -> (s: String)
        requires
            self.wf(),
            self.phase is Complete,
            deck_names(deck_model(self.deck)).len() <= usize::MAX,
        ensures
            s@ == export_model(deck_model(self.deck)),
    {
        let ghost dm: Seq<Seq<Card>> = deck_model(self.deck);
        let ghost total: int = deck_names(dm).len() as int;
        let mut names: Vec<String> = Vec::new();
        let mut counts: Vec<usize> = Vec::new();
        let ghost mut processed: Seq<Seq<char>> = Seq::empty();
        let nb = self.deck.buckets.len();
        let mut b: usize = 0;
        proof {
            assert(dm.take(0) =~= Seq::<Seq<Card>>::empty());
            assert(processed =~= deck_names(dm.take(0)));
            assert(sel_names(names@) =~= distinct_in_order(processed));
        }
        while b < nb
            invariant
                b <= nb,
                nb == self.deck.buckets@.len(),
                dm == deck_model(self.deck),
                total == deck_names(dm).len(),
                total <= usize::MAX,
                processed == deck_names(dm.take(b as int)),
                names@.len() == counts@.len(),
                sel_names(names@) == distinct_in_order(processed),
                forall|p: int|
                    0 <= p < names@.len() ==> (#[trigger] counts@[p]) as int == count_of(
                        processed,
                        names@[p]@,
                    ),
            decreases nb - b,
        {
            let nk = self.deck.buckets[b].len();
            let mut k: usize = 0;
            proof {
                assert(names_of(dm[b as int]).take(0) =~= Seq::<Seq<char>>::empty());
                assert(processed =~= deck_names(dm.take(b as int)) + names_of(dm[b as int]).take(
                    0,
                ));
                lemma_deck_names_budget(dm, b as int);
            }
            while k < nk
                invariant
                    k <= nk,
                    b < nb,
                    nb == self.deck.buckets@.len(),
                    nk == self.deck.buckets@[b as int]@.len(),
                    dm == deck_model(self.deck),
                    total == deck_names(dm).len(),
                    total <= usize::MAX,
                    deck_names(dm.take(b as int)).len() + nk <= total,
                    processed == deck_names(dm.take(b as int)) + names_of(dm[b as int]).take(
                        k as int,
                    ),
                    processed.len() == deck_names(dm.take(b as int)).len() + k,
                    names@.len() == counts@.len(),
                    sel_names(names@) == distinct_in_order(processed),
                    forall|p: int|
                        0 <= p < names@.len() ==> (#[trigger] counts@[p]) as int == count_of(
                            processed,
                            names@[p]@,
                        ),
                decreases nk - k,
            {
                let card_name = self.deck.buckets[b][k].name.clone();
                let ghost x: Seq<char> = card_name@;
                proof {
                    assert(dm[b as int] == self.deck.buckets@[b as int]@);
                    assert(names_of(dm[b as int])[k as int] == x);
                    assert(names_of(dm[b as int]).take(k as int + 1) =~= names_of(
                        dm[b as int],
                    ).take(k as int).push(x));
                    assert((processed.push(x)).drop_last() =~= processed);
                    assert((processed.push(x)).last() == x);
                    lemma_distinct_in_order_nodup(processed);
                }
                match find_id(&names, card_name.as_str()) {
                    Some(p) => {
                        proof {
                            assert(sel_names(names@)[p as int] == names@[p as int]@);
                            assert(distinct_in_order(processed).contains(x));
                            lemma_count_of_le(processed, x);
                        }
                        let cur = counts[p];
                        counts[p] = cur + 1;
                        proof {
                            assert forall|q: int|
                                0 <= q < names@.len() implies (#[trigger] counts@[q]) as int
                                == count_of(processed.push(x), names@[q]@) by {
                                if q != p as int {
                                    assert(sel_names(names@)[q] == names@[q]@);
                                    assert(names@[q]@ != x);
                                }
                            }
                        }
                    },
                    None => {
                        proof {
                            if distinct_in_order(processed).contains(x) {
                                let w = choose|w: int|
                                    0 <= w < distinct_in_order(processed).len()
                                        && distinct_in_order(processed)[w] == x;
                                assert(sel_names(names@)[w] == names@[w]@);
                                assert(false);
                            }
                        }
                        names.push(card_name);
                        counts.push(1);
                        proof {
                            assert(sel_names(names@) =~= distinct_in_order(processed.push(x)));
                            assert forall|q: int|
                                0 <= q < names@.len() implies (#[trigger] counts@[q]) as int
                                == count_of(processed.push(x), names@[q]@) by {
                                if q < names@.len() - 1 {
                                    assert(sel_names(names@.drop_last())[q] == names@[q]@);
                                    assert(names@[q]@ != x);
                                } else {
                                    lemma_count_of_le(processed, x);
                                    assert(count_of(processed, x) == 0) by {
                                        lemma_count_of_zero(processed, x);
                                    }
                                }
                            }
                        }
                    },
                }
                proof {
                    processed = processed.push(x);
                }
                k = k + 1;
            }
            proof {
                lemma_deck_names_step(dm, b as int);
                assert(names_of(dm[b as int]).take(nk as int) =~= names_of(dm[b as int]));
            }
            b = b + 1;
        }
        proof {
            assert(dm.take(nb as int) =~= dm);
        }
        let ghost all: Seq<Seq<char>> = deck_names(dm);
        let ghost dn: Seq<Seq<char>> = distinct_in_order(all);
        let m = names.len();
        let mut out = String::new();
        proof {
            reveal_strlit("\n");
            reveal_strlit(" ");
            assert("\n"@ =~= seq!['\n']);
            assert(" "@ =~= seq![' ']);
            assert(dn.take(0) =~= Seq::<Seq<char>>::empty());
        }
        let mut p: usize = 0;
        while p < m
            invariant
                p <= m,
                m == names@.len(),
                m == counts@.len(),
                m == dn.len(),
                sel_names(names@) == dn,
                forall|q: int|
                    0 <= q < m ==> (#[trigger] counts@[q]) as int == count_of(all, names@[q]@),
                out@ == render_lines(dn.take(p as int), all),
                "\n"@ == seq!['\n'],
                " "@ == seq![' '],
            decreases m - p,
        {
            proof {
                lemma_render_step(dn, all, p as int);
                assert(sel_names(names@)[p as int] == names@[p as int]@);
            }
            if p > 0 {
                out.append("\n");
            }
            let cs = format_count(counts[p]);
            out.append(cs.as_str());
            out.append(" ");
            out.append(names[p].as_str());
            proof {
                assert(out@ =~= render_lines(dn.take(p as int + 1), all));
            }
            p = p + 1;
        }
        proof {
            assert(dn.take(m as int) =~= dn);
        }
        out
    }
}

/// A name the distinct list lacks never occurs.
proof fn lemma_count_of_zero(names: Seq<Seq<char>>, name: Seq<char>)
    requires
        !distinct_in_order(names).contains(name),
    ensures
        count_of(names, name) == 0,
    decreases names.len(),
{
    if names.len() > 0 {
        let rest = distinct_in_order(names.drop_last());
        if rest.contains(names.last()) {
            assert(distinct_in_order(names) == rest);
        }
        assert(!rest.contains(name)) by {
            if rest.contains(name) {
                let w = choose|w: int| 0 <= w < rest.len() && rest[w] == name;
                if !rest.contains(names.last()) {
                    assert(rest.push(names.last())[w] == name);
                    assert(distinct_in_order(names).contains(name));
                } else {
                    assert(distinct_in_order(names).contains(name));
                }
            }
        }
        lemma_count_of_zero(names.drop_last(), name);
        assert(names.last() != name) by {
            if names.last() == name {
                if rest.contains(names.last()) {
                    assert(distinct_in_order(names).contains(name));
                } else {
                    assert(rest.push(names.last())[rest.len() as int] == name);
                    assert(distinct_in_order(names).contains(name));
                }
            }
        }
    }
}

} // verus!
