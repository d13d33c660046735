//! The sorted deck of picks: a mapping from mana value to a sequence of
//! cards kept ordered by name ascending. It grows by insertion only.

use vstd::prelude::*;

use crate::catalog::Card;
use crate::names::{
    lemma_lex_lt_asymmetric, lemma_lex_lt_irreflexive, lemma_lex_le_transitive, lex_le, lex_lt,
    str_lt,
};

verus! {

/// A bucket is kept ordered by name, ascending. Copies of one card make
/// ties, so the order is not strict.
pub open spec fn bucket_sorted(s: Seq<Card>) -> bool {
    forall|i: int, j: int| 0 <= i < j < s.len() ==> lex_le(s[i].name@, s[j].name@)
}

/// Where a name belongs in a sorted bucket: before the first card there
/// whose name is not below it.
pub open spec fn insert_pos(s: Seq<Card>, name: Seq<char>) -> int
    decreases s.len(),
{
    if s.len() == 0 {
        0
    } else if lex_lt(s[0].name@, name) {
        1 + insert_pos(s.skip(1), name)
    } else {
        0
    }
}

/// The insertion point is where the scan for the first not-below card stops.
proof fn lemma_insert_pos_at(s: Seq<Card>, name: Seq<char>, i: int)
    requires
        0 <= i <= s.len(),
        forall|k: int| 0 <= k < i ==> lex_lt((#[trigger] s[k]).name@, name),
        i < s.len() ==> !lex_lt(s[i].name@, name),
    ensures
        insert_pos(s, name) == i,
    decreases s.len(),
{
    if s.len() == 0 {
    } else if i == 0 {
    } else {
        assert(lex_lt(s[0].name@, name));
        assert(forall|k: int| 0 <= k < i - 1 ==> s.skip(1)[k] == s[k + 1]);
        assert(i - 1 < s.skip(1).len() ==> s.skip(1)[i - 1] == s[i]);
        lemma_insert_pos_at(s.skip(1), name, i - 1);
    }
}

/// The accumulated picks, grouped by mana value and alphabetized within
/// each group.
#[derive(Debug)]
pub struct SortedDeck {
    pub buckets: Vec<Vec<Card>>,
}

/// The mathematical image of the deck: one card sequence per mana value.
pub open spec fn deck_model(d: SortedDeck) -> Seq<Seq<Card>> {
    d.buckets@.map_values(|v: Vec<Card>| v@)
}

/// The deck that results from inserting a picked card: the buckets grow to
/// reach the card's mana value, and the card lands in its bucket before the
/// first name not below its own.
pub open spec fn deck_insert_model(dm: Seq<Seq<Card>>, card: Card) -> Seq<Seq<Card>> {
    let mv = card.mana_value as int;
    let grown = if mv < dm.len() {
        dm
    } else {
        dm + Seq::new((mv + 1 - dm.len()) as nat, |k: int| Seq::<Card>::empty())
    };
    grown.update(mv, grown[mv].insert(insert_pos(grown[mv], card.name@), card))
}

impl SortedDeck {
    /// Every bucket is ordered by name, and holds only cards of its own
    /// mana value.
    pub open spec fn wf(self) -> bool {
        &&& forall|b: int|
            0 <= b < self.buckets@.len() ==> bucket_sorted((#[trigger] self.buckets@[b])@)
        &&& forall|b: int, k: int|
            0 <= b < self.buckets@.len() && 0 <= k < self.buckets@[b]@.len()
                ==> (#[trigger] self.buckets@[b]@[k]).mana_value as int == b
    }

    /// An empty deck.
    pub fn new() -> (r: SortedDeck)
        ensures
            r.wf(),
            r.buckets@.len() == 0,
    {
        SortedDeck { buckets: Vec::new() }
    }

    /// Inserts a picked card into its mana-value bucket, keeping the bucket
    /// ordered by name; other buckets are untouched.
    pub fn insert(&mut self, card: Card)
        requires
            old(self).wf(),
            card.mana_value < usize::MAX,
        ensures
            final(self).wf(),
            deck_model(*final(self)) == deck_insert_model(deck_model(*old(self)), card),
    {
        let mv = card.mana_value;
        let ghost dm = deck_model(*old(self));
        while self.buckets.len() <= mv
            invariant
                mv < usize::MAX,
                old(self).wf(),
                self.buckets@.len() <= mv + 1 || self.buckets@.len() == old(self).buckets@.len(),
                self.buckets@.len() >= old(self).buckets@.len(),
                forall|b: int|
                    0 <= b < old(self).buckets@.len() ==> (#[trigger] self.buckets@[b])
                        == old(self).buckets@[b],
                forall|b: int|
                    old(self).buckets@.len() <= b < self.buckets@.len()
                        ==> (#[trigger] self.buckets@[b])@ == Seq::<Card>::empty(),
            decreases mv + 1 - self.buckets@.len(),
        {
            let empty_bucket: Vec<Card> = Vec::new();
            self.buckets.push(empty_bucket);
        }
        let ghost grown = deck_model(*self);
        proof {
            if (mv as int) < dm.len() {
                assert(grown =~= dm);
            } else {
                assert(grown =~= dm + Seq::new(
                    (mv as int + 1 - dm.len()) as nat,
                    |k: int| Seq::<Card>::empty(),
                ));
            }
        }
        let n = self.buckets[mv].len();
        let mut idx: usize = 0;
        loop
            invariant
                idx <= n,
                mv < self.buckets@.len(),
                n == self.buckets@[mv as int]@.len(),
                forall|k: int|
                    0 <= k < idx ==> lex_lt(
                        (#[trigger] self.buckets@[mv as int]@[k]).name@,
                        card.name@,
                    ),
            ensures
                idx <= n,
                mv < self.buckets@.len(),
                n == self.buckets@[mv as int]@.len(),
                forall|k: int|
                    0 <= k < idx ==> lex_lt(
                        (#[trigger] self.buckets@[mv as int]@[k]).name@,
                        card.name@,
                    ),
                idx < n ==> !lex_lt(self.buckets@[mv as int]@[idx as int].name@, card.name@),
            decreases n - idx,
        {
            if idx >= n {
                break ;
            }
            if !str_lt(self.buckets[mv][idx].name.as_str(), card.name.as_str()) {
                break ;
            }
            idx = idx + 1;
        }
        let ghost bucket = self.buckets@[mv as int]@;
        proof {
            lemma_insert_pos_at(bucket, card.name@, idx as int);
        }
        let inner: &mut Vec<Card> = &mut self.buckets[mv];
        inner.insert(idx, card);
        proof {
            let nb = bucket.insert(idx as int, card);
            assert(self.buckets@[mv as int]@ == nb);
            assert forall|p: int, q: int|
                0 <= p < q < nb.len() implies lex_le(nb[p].name@, nb[q].name@) by {
                let i = idx as int;
                if q < i {
                    assert(nb[p] == bucket[p] && nb[q] == bucket[q]);
                    assert(lex_le(bucket[p].name@, bucket[q].name@));
                } else if p < i && q == i {
                    assert(nb[p] == bucket[p] && nb[q] == card);
                    lemma_lex_lt_asymmetric(bucket[p].name@, card.name@);
                } else if p < i && q > i {
                    assert(nb[p] == bucket[p] && nb[q] == bucket[q - 1]);
                    if p == q - 1 {
                        lemma_lex_lt_asymmetric(bucket[p].name@, card.name@);
                        assert(lex_le(card.name@, bucket[i].name@));
                        assert(p == i);
                    } else {
                        assert(lex_le(bucket[p].name@, bucket[q - 1].name@));
                    }
                } else if p == i {
                    assert(nb[p] == card && nb[q] == bucket[q - 1]);
                    assert(lex_le(card.name@, bucket[i].name@) || i == bucket.len());
                    if i < bucket.len() {
                        if q - 1 == i {
                        } else {
                            assert(lex_le(bucket[i].name@, bucket[q - 1].name@));
                            lemma_lex_le_transitive(card.name@, bucket[i].name@, bucket[q - 1].name@);
                        }
                    }
                } else {
                    assert(nb[p] == bucket[p - 1] && nb[q] == bucket[q - 1]);
                    assert(lex_le(bucket[p - 1].name@, bucket[q - 1].name@));
                }
            }
            assert(deck_model(*self) =~= grown.update(
                mv as int,
                grown[mv as int].insert(insert_pos(grown[mv as int], card.name@), card),
            ));
            assert(deck_model(*self) == deck_insert_model(dm, card));
        }
    }
}

} // verus!
