use vstd::prelude::*;

use crate::card::{card_points, Card};

verus! {

/// Largest hand whose points are sure to fit in a `u32` (50 points a card).
pub const MAX_SCORED_HAND: usize = 85_000_000;

/// Sum of the point values of the cards in `s`.
pub open spec fn hand_points(s: Seq<Card>) -> int
    decreases s.len(),
{
    if s.len() == 0 {
        0
    } else {
        hand_points(s.drop_last()) + card_points(s.last())
    }
}

pub proof fn lemma_hand_points_bounds(s: Seq<Card>)
    ensures
        0 <= hand_points(s) <= 50 * s.len(),
    decreases s.len(),
{
    if s.len() > 0 {
        lemma_hand_points_bounds(s.drop_last());
    }
}

/// Points left in a hand: the sum of its cards' values.
pub fn calculate_hand_points(hand: &[Card]) -> (r: u32)
    requires
        hand@.len() <= MAX_SCORED_HAND,
    ensures
        r as int == hand_points(hand@),
{
    let mut total: u32 = 0;
    let mut i: usize = 0;
    while i < hand.len()
        invariant
            i <= hand@.len() <= MAX_SCORED_HAND,
            total as int == hand_points(hand@.subrange(0, i as int)),
            total <= 50 * i,
        decreases hand@.len() - i,
    {
        proof {
            assert(hand@.subrange(0, i as int + 1).drop_last() =~= hand@.subrange(0, i as int));
        }
        total = total + hand[i].points();
        i = i + 1;
    }
    proof {
        assert(hand@.subrange(0, i as int) =~= hand@);
    }
    total
}

} // verus!
