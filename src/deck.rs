use rand::seq::SliceRandom;
use vstd::prelude::*;

use crate::card::{Card, Suit, Value};

verus! {

/// Number of cards in a full Carioca deck: two 52-card decks and four jokers.
pub const DECK_SIZE: usize = 108;

pub open spec fn suit_at(i: int) -> Suit {
    if i == 0 {
        Suit::Hearts
    } else if i == 1 {
        Suit::Diamonds
    } else if i == 2 {
        Suit::Clubs
    } else {
        Suit::Spades
    }
}

pub open spec fn value_at(i: int) -> Value {
    if i == 0 {
        Value::Two
    } else if i == 1 {
        Value::Three
    } else if i == 2 {
        Value::Four
    } else if i == 3 {
        Value::Five
    } else if i == 4 {
        Value::Six
    } else if i == 5 {
        Value::Seven
    } else if i == 6 {
        Value::Eight
    } else if i == 7 {
        Value::Nine
    } else if i == 8 {
        Value::Ten
    } else if i == 9 {
        Value::Jack
    } else if i == 10 {
        Value::Queen
    } else if i == 11 {
        Value::King
    } else {
        Value::Ace
    }
}

/// The card at position `i` of one 54-card half of the deck: the four
/// suits in order, each from Two to Ace, then two jokers.
pub open spec fn half_deck_card(i: int) -> Card {
    if i < 52 {
        Card::Standard { suit: suit_at(i / 13), value: value_at(i % 13) }
    } else {
        Card::Joker
    }
}

/// The 108 cards in canonical (unshuffled) order.
pub open spec fn canonical_deck() -> Seq<Card> {
    Seq::new(DECK_SIZE as nat, |i: int| half_deck_card(i % 54))
}

/// Relies on rand's `SliceRandom::shuffle`, which permutes the slice in
/// place by swapping elements.
#[verifier::external_body]
fn shuffle_cards(cards: &mut Vec<Card>)
    ensures
        final(cards)@.to_multiset() == old(cards)@.to_multiset(),
        final(cards)@.len() == old(cards)@.len(),
{
    cards.shuffle(&mut rand::rng());
}

/// A pile of cards drawn from its tail.
#[derive(Clone)]
pub struct Deck {
    pub cards: Vec<Card>,
}

impl Deck {
    /// A full deck in canonical order: two standard 52-card decks plus
    /// four jokers, 108 cards.
    pub fn new() -> (d: Deck)
        ensures
            d.cards@ == canonical_deck(),
    {
        let suits = [Suit::Hearts, Suit::Diamonds, Suit::Clubs, Suit::Spades];
        let values = [
            Value::Two,
            Value::Three,
            Value::Four,
            Value::Five,
            Value::Six,
            Value::Seven,
            Value::Eight,
            Value::Nine,
            Value::Ten,
            Value::Jack,
            Value::Queen,
            Value::King,
            Value::Ace,
        ];
        let mut cards: Vec<Card> = Vec::with_capacity(DECK_SIZE);
        let mut half: usize = 0;
        while half < 2
            invariant
                half <= 2,
                cards@.len() == 54 * half,
                forall|k: int| 0 <= k < cards@.len() ==> cards@[k] == half_deck_card(k % 54),
                suits@ == seq![Suit::Hearts, Suit::Diamonds, Suit::Clubs, Suit::Spades],
                forall|k: int| 0 <= k < 13 ==> values@[k] == value_at(k),
            decreases 2 - half,
        {
            let mut s: usize = 0;
            while s < 4
                invariant
                    half < 2,
                    s <= 4,
                    cards@.len() == 54 * half + 13 * s,
                    forall|k: int| 0 <= k < cards@.len() ==> cards@[k] == half_deck_card(k % 54),
                    suits@ == seq![Suit::Hearts, Suit::Diamonds, Suit::Clubs, Suit::Spades],
                    forall|k: int| 0 <= k < 13 ==> values@[k] == value_at(k),
                decreases 4 - s,
            {
                let mut v: usize = 0;
                while v < 13
                    invariant
                        half < 2,
                        s < 4,
                        v <= 13,
                        cards@.len() == 54 * half + 13 * s + v,
                        forall|k: int|
                            0 <= k < cards@.len() ==> cards@[k] == half_deck_card(k % 54),
                        suits@ == seq![Suit::Hearts, Suit::Diamonds, Suit::Clubs, Suit::Spades],
                        forall|k: int| 0 <= k < 13 ==> values@[k] == value_at(k),
                    decreases 13 - v,
                {
                    let c = Card::Standard { suit: suits[s], value: values[v] };
                    proof {
                        let n = cards@.len() as int;
                        assert(n % 54 == 13 * s + v) by (nonlinear_arith)
                            requires
                                n == 54 * half + 13 * s + v,
                                half < 2,
                                s < 4,
                                v < 13,
                        ;
                        assert((13 * s + v) / 13 == s && (13 * s + v) % 13 == v) by (nonlinear_arith)
                            requires
                                s < 4,
                                v < 13,
                        ;
                        assert(suit_at(s as int) == suits@[s as int]);
                    }
                    cards.push(c);
                    v = v + 1;
                }
                s = s + 1;
            }
            let mut j: usize = 0;
            while j < 2
                invariant
                    half < 2,
                    j <= 2,
                    cards@.len() == 54 * half + 52 + j,
                    forall|k: int| 0 <= k < cards@.len() ==> cards@[k] == half_deck_card(k % 54),
                    suits@ == seq![Suit::Hearts, Suit::Diamonds, Suit::Clubs, Suit::Spades],
                    forall|k: int| 0 <= k < 13 ==> values@[k] == value_at(k),
                decreases 2 - j,
            {
                proof {
                    let n = cards@.len() as int;
                    assert(n % 54 == 52 + j) by (nonlinear_arith)
                        requires
                            n == 54 * half + 52 + j,
                            half < 2,
                            j < 2,
                    ;
                }
                cards.push(Card::Joker);
                j = j + 1;
            }
            half = half + 1;
        }
        proof {
            assert(cards@ =~= canonical_deck());
        }
        Deck { cards }
    }

    /// Puts the cards in a uniformly random order.
    pub fn shuffle(&mut self)
        ensures
            final(self).cards@.to_multiset() == old(self).cards@.to_multiset(),
            final(self).cards@.len() == old(self).cards@.len(),
    {
        shuffle_cards(&mut self.cards);
    }

    /// Takes the card on top (the tail), if any.
    pub fn draw(&mut self) -> (r: Option<Card>)
        ensures
            old(self).cards@.len() == 0 ==> r is None && final(self).cards@ == old(self).cards@,
            old(self).cards@.len() > 0 ==> r == Some(old(self).cards@.last())
                && final(self).cards@ == old(self).cards@.drop_last(),
    {
        self.cards.pop()
    }

    /// Number of cards left in the deck.
    pub fn remaining(&self) -> (r: usize)
        ensures
            r == self.cards@.len(),
    {
        self.cards.len()
    }
}

} // verus!
