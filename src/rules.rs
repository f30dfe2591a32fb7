use vstd::prelude::*;

use crate::card::{card_rank, card_suit, rank_of, Card, Suit, Value};

verus! {

/// Number of jokers in a sequence of cards.
pub open spec fn joker_count(s: Seq<Card>) -> nat
    decreases s.len(),
{
    if s.len() == 0 {
        0
    } else {
        joker_count(s.drop_last()) + if s.last() is Joker {
            1nat
        } else {
            0nat
        }
    }
}

/// A trio: at least three cards, at most one joker, and every standard
/// card of one and the same rank.
pub open spec fn is_trio(s: Seq<Card>) -> bool {
    &&& s.len() >= 3
    &&& joker_count(s) <= 1
    &&& forall|i: int, j: int|
        0 <= i < s.len() && 0 <= j < s.len() && s[i] is Standard && s[j] is Standard
            ==> card_rank(#[trigger] s[i]) == card_rank(#[trigger] s[j])
}

/// Some position of a standard card in `s`.
pub open spec fn some_standard(s: Seq<Card>) -> int {
    choose|i: int| 0 <= i < s.len() && s[i] is Standard
}


/// Rank of the first place of an escala, joker or not: its run is
/// `escala_base(s) .. escala_base(s) + s.len()`.
pub open spec fn escala_base(s: Seq<Card>) -> int {
    card_rank(s[some_standard(s)]) - some_standard(s)
}

/// The base of a run whose standard cards all sit at rank `b` plus their place.
pub proof fn lemma_escala_base_is(s: Seq<Card>, b: int)
    requires
        exists|i: int| 0 <= i < s.len() && s[i] is Standard,
        forall|k: int| 0 <= k < s.len() && (#[trigger] s[k]) is Standard ==> card_rank(s[k]) - k == b,
    ensures
        escala_base(s) == b,
{
    let k = some_standard(s);
    assert(s[k] is Standard);
}

/// An escala: at least four cards, at most one joker, all standard cards of
/// one suit, and read left to right the cards form a run of consecutive
/// ranks in which the joker takes the place of one rank. Ranks run 2..=14
/// with the Ace on top only, so no run wraps from King through Ace to Two,
/// and no place of the run (a joker's either) falls below 2 or above the Ace.
pub open spec fn is_escala(s: Seq<Card>) -> bool {
    &&& s.len() >= 4
    &&& joker_count(s) <= 1
    &&& 2 <= escala_base(s)
    &&& escala_base(s) + s.len() - 1 <= 14
    &&& forall|i: int, j: int|
        0 <= i < s.len() && 0 <= j < s.len() && s[i] is Standard && s[j] is Standard
            ==> card_rank(#[trigger] s[j]) - card_rank(#[trigger] s[i]) == j - i
            && card_suit(s[i]) == card_suit(s[j])
}

pub proof fn lemma_joker_count_push(s: Seq<Card>, c: Card)
    ensures
        joker_count(s.push(c)) == joker_count(s) + if c is Joker {
            1nat
        } else {
            0nat
        },
{
    assert(s.push(c).drop_last() =~= s);
}

pub proof fn lemma_joker_count_bound(s: Seq<Card>)
    ensures
        joker_count(s) <= s.len(),
        (forall|i: int| 0 <= i < s.len() ==> s[i] is Standard) ==> joker_count(s) == 0,
    decreases s.len(),
{
    if s.len() > 0 {
        lemma_joker_count_bound(s.drop_last());
    }
}

pub proof fn lemma_joker_count_prepend(c: Card, s: Seq<Card>)
    ensures
        joker_count(seq![c] + s) == joker_count(s) + if c is Joker {
            1nat
        } else {
            0nat
        },
    decreases s.len(),
{
    if s.len() > 0 {
        assert((seq![c] + s).drop_last() =~= seq![c] + s.drop_last());
        lemma_joker_count_prepend(c, s.drop_last());
    } else {
        assert((seq![c] + s).drop_last() =~= s);
    }
}

/// A meld made only of jokers has as many jokers as cards.
pub proof fn lemma_joker_count_all(s: Seq<Card>)
    requires
        forall|i: int| 0 <= i < s.len() ==> s[i] is Joker,
    ensures
        joker_count(s) == s.len(),
    decreases s.len(),
{
    if s.len() > 0 {
        lemma_joker_count_all(s.drop_last());
    }
}

/// Counts the jokers in `cards`.
pub fn count_jokers(cards: &[Card]) -> (r: usize)
    ensures
        r == joker_count(cards@),
{
    let mut n: usize = 0;
    let mut i: usize = 0;
    while i < cards.len()
        invariant
            i <= cards@.len(),
            n == joker_count(cards@.subrange(0, i as int)),
            n <= i,
        decreases cards@.len() - i,
    {
        proof {
            assert(cards@.subrange(0, i as int + 1) =~= cards@.subrange(0, i as int).push(
                cards@[i as int],
            ));
            lemma_joker_count_push(cards@.subrange(0, i as int), cards@[i as int]);
        }
        if cards[i].is_joker() {
            n = n + 1;
        }
        i = i + 1;
    }
    proof {
        assert(cards@.subrange(0, i as int) =~= cards@);
    }
    n
}

/// Whether `cards`, in this order, form a legal trio.
pub fn is_valid_trio(cards: &[Card]) -> (r: bool)
    ensures
        r == is_trio(cards@),
{
    if cards.len() < 3 {
        return false;
    }
    let mut jokers: usize = 0;
    let mut first: Option<Value> = None;
    let mut first_idx: usize = 0;
    let mut i: usize = 0;
    while i < cards.len()
        invariant
            0 <= i <= cards@.len(),
            jokers == joker_count(cards@.subrange(0, i as int)),
            jokers <= i,
            first is None ==> forall|k: int| 0 <= k < i ==> cards@[k] is Joker,
            first matches Some(v) ==> {
                &&& first_idx < i
                &&& cards@[first_idx as int] == (Card::Standard {
                    suit: card_suit(cards@[first_idx as int]),
                    value: v,
                })
                &&& forall|k: int|
                    0 <= k < i && cards@[k] is Standard ==> #[trigger] card_rank(cards@[k])
                        == rank_of(v)
            },
        decreases cards@.len() - i,
    {
        proof {
            assert(cards@.subrange(0, i as int + 1) =~= cards@.subrange(0, i as int).push(
                cards@[i as int],
            ));
            lemma_joker_count_push(cards@.subrange(0, i as int), cards@[i as int]);
        }
        match cards[i] {
            Card::Joker => {
                jokers = jokers + 1;
            },
            Card::Standard { suit, value } => {
                match first {
                    None => {
                        first = Some(value);
                        first_idx = i;
                    },
                    Some(v) => {
                        if v != value {
                            proof {
                                let a = first_idx as int;
                                let b = i as int;
                                assert(card_rank(cards@[a]) != card_rank(cards@[b])) by {
                                    crate::card::lemma_rank_injective(v, value);
                                }
                            }
                            return false;
                        }
                    },
                }
            },
        }
        i = i + 1;
    }
    proof {
        assert(cards@.subrange(0, i as int) =~= cards@);
    }
    jokers <= 1
}

/// Every standard card among the first `n` of `s` sits where a run through
/// rank `r` at position `p` puts it, in suit `suit`.
spec fn run_from(s: Seq<Card>, n: int, p: int, r: int, suit: Suit) -> bool {
    forall|k: int| 0 <= k < n && (#[trigger] s[k]) is Standard ==> in_run(s[k], k, p, r, suit)
}

/// A standard card at position `k` that fits the run through rank `r` at `p`.
spec fn in_run(c: Card, k: int, p: int, r: int, suit: Suit) -> bool {
    card_rank(c) - r == k - p && card_suit(c) == suit
}

proof fn lemma_run_from_extend(s: Seq<Card>, n: int, p: int, r: int, suit: Suit)
    requires
        0 <= n < s.len(),
        run_from(s, n, p, r, suit),
        s[n] is Joker || in_run(s[n], n, p, r, suit),
    ensures
        run_from(s, n + 1, p, r, suit),
{
}

/// Whether `cards`, in this order, form a legal escala.
pub fn is_valid_escala(cards: &[Card]) -> (r: bool)
    ensures
        r == is_escala(cards@),
{
    if cards.len() < 4 {
        return false;
    }
    let mut jokers: usize = 0;
    // position, rank and suit of the first standard card
    let mut first: Option<(usize, u8, Suit)> = None;
    let mut i: usize = 0;
    while i < cards.len()
        invariant
            0 <= i <= cards@.len(),
            jokers == joker_count(cards@.subrange(0, i as int)),
            jokers <= i,
            first is None ==> forall|k: int| 0 <= k < i ==> cards@[k] is Joker,
            first matches Some(f) ==> f.0 < i,
            first matches Some(f) ==> cards@[f.0 as int] is Standard,
            first matches Some(f) ==> card_rank(cards@[f.0 as int]) == f.1 as int,
            first matches Some(f) ==> card_suit(cards@[f.0 as int]) == f.2,
            first matches Some(f) ==> run_from(cards@, i as int, f.0 as int, f.1 as int, f.2),
        decreases cards@.len() - i,
    {
        proof {
            assert(cards@.subrange(0, i as int + 1) =~= cards@.subrange(0, i as int).push(
                cards@[i as int],
            ));
            lemma_joker_count_push(cards@.subrange(0, i as int), cards@[i as int]);
        }
        match cards[i] {
            Card::Joker => {
                if let Some(f) = first {
                    proof {
                        lemma_run_from_extend(cards@, i as int, f.0 as int, f.1 as int, f.2);
                    }
                }
                jokers = jokers + 1;
            },
            Card::Standard { suit, value } => {
                let r = value.rank();
                assert(cards@[i as int] == (Card::Standard { suit, value }));
                match first {
                    None => {
                        first = Some((i, r, suit));
                        proof {
                            lemma_run_from_extend(cards@, i as int, i as int, r as int, suit);
                        }
                    },
                    Some(f) => {
                        let dist = i - f.0;
                        if dist > 12 || r as usize != f.1 as usize + dist || suit != f.2 {
                            proof {
                                let a = f.0 as int;
                                let b = i as int;
                                assert(cards@[b] is Standard && cards@[a] is Standard);
                            }
                            return false;
                        }
                        proof {
                            lemma_run_from_extend(cards@, i as int, f.0 as int, f.1 as int, f.2);
                        }
                    },
                }
            },
        }
        i = i + 1;
    }
    proof {
        assert(cards@.subrange(0, i as int) =~= cards@);
    }
    if jokers > 1 {
        return false;
    }
    match first {
        None => {
            proof {
                lemma_joker_count_all(cards@);
            }
            false
        },
        Some(f) => {
            proof {
                let k = some_standard(cards@);
                assert(cards@[f.0 as int] is Standard);
                assert(0 <= k < cards@.len() && cards@[k] is Standard);
                assert(in_run(cards@[k], k, f.0 as int, f.1 as int, f.2));
                assert(escala_base(cards@) == f.1 - f.0);
            }
            (f.1 as usize) - 2 >= f.0 && cards.len() - f.0 <= 15 - (f.1 as usize)
        },
    }
}

} // verus!
