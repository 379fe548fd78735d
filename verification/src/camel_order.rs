//! The order in which players sort: strongest first.

use crate::camel_cards::{beats, cards_beat, player_beats, same_cards, ties, Card, Player};
use std::cmp::Ordering;
use vstd::prelude::*;

verus! {

/// Hands that agree on the first `k` cards and are not the same are decided
/// by a later card.
proof fn lemma_cards_decide(a: Seq<Card>, b: Seq<Card>, k: int)
    requires
        0 <= k <= 5,
        !same_cards(a, b),
        forall|j: int| 0 <= j < k ==> (#[trigger] a[j]).0 == b[j].0,
    ensures
        cards_beat(a, b) || cards_beat(b, a),
    decreases 5 - k,
{
    if k < 5 {
        if a[k].0 == b[k].0 {
            lemma_cards_decide(a, b, k + 1);
        } else if a[k].0 > b[k].0 {
            assert(cards_beat(a, b));
        } else {
            assert(b[k].0 > a[k].0);
            assert(forall|j: int| 0 <= j < k ==> (#[trigger] b[j]).0 == a[j].0);
            assert(cards_beat(b, a));
        }
    }
}

/// Of two players that do not tie, one beats the other, and never both.
pub proof fn lemma_one_beats(a: Player, b: Player)
    requires
        !ties(a, b),
    ensures
        beats(a, b) != beats(b, a),
{
    if cards_beat(a.cards@, b.cards@) && cards_beat(b.cards@, a.cards@) {
        let i = choose|i: int|
            0 <= i < 5 && (#[trigger] a.cards@[i]).0 > b.cards@[i].0 && forall|j: int|
                0 <= j < i ==> (#[trigger] a.cards@[j]).0 == b.cards@[j].0;
        let k = choose|k: int|
            0 <= k < 5 && (#[trigger] b.cards@[k]).0 > a.cards@[k].0 && forall|j: int|
                0 <= j < k ==> (#[trigger] b.cards@[j]).0 == a.cards@[j].0;
        if i < k {
            assert(b.cards@[i].0 == a.cards@[i].0);
        } else if k < i {
            assert(a.cards@[k].0 == b.cards@[k].0);
        }
    }
    if !same_cards(a.cards@, b.cards@) {
        lemma_cards_decide(a.cards@, b.cards@, 0);
    }
}

impl Player {
    /// Compares two players that do not tie: `Less` for the stronger one, so
    /// that sorting puts the strongest first.
    pub fn cmp(&self, other: &Player) -> (o: Ordering)
        requires
            !ties(*self, *other),
        ensures
            o == Ordering::Less <==> beats(*self, *other),
            o == Ordering::Greater <==> beats(*other, *self),
            o != Ordering::Equal,
    {
        proof {
            lemma_one_beats(*self, *other);
        }
        if player_beats(self, other) {
            Ordering::Less
        } else {
            Ordering::Greater
        }
    }
}

} // verus!
