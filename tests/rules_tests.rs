use carioca::card::{Card, Suit, Value};
use carioca::rules::{is_valid_escala, is_valid_trio};

fn sc(suit: Suit, value: Value) -> Card {
    Card::Standard { suit, value }
}

#[test]
fn test_valid_trio_no_joker() {
    let cards = vec![
        sc(Suit::Hearts, Value::Five),
        sc(Suit::Clubs, Value::Five),
        sc(Suit::Spades, Value::Five),
    ];
    assert!(is_valid_trio(&cards));
}

#[test]
fn test_valid_trio_with_joker() {
    let cards = vec![sc(Suit::Hearts, Value::Five), Card::Joker, sc(Suit::Spades, Value::Five)];
    assert!(is_valid_trio(&cards));
}

#[test]
fn test_invalid_trio_mixed_values() {
    let cards = vec![
        sc(Suit::Hearts, Value::Five),
        sc(Suit::Clubs, Value::Six),
        sc(Suit::Spades, Value::Five),
    ];
    assert!(!is_valid_trio(&cards));
}

#[test]
fn test_invalid_trio_too_many_jokers() {
    let cards = vec![sc(Suit::Hearts, Value::Five), Card::Joker, Card::Joker];
    assert!(!is_valid_trio(&cards));
}

#[test]
fn test_valid_escala_no_joker() {
    let cards = vec![
        sc(Suit::Hearts, Value::Three),
        sc(Suit::Hearts, Value::Four),
        sc(Suit::Hearts, Value::Five),
        sc(Suit::Hearts, Value::Six),
    ];
    assert!(is_valid_escala(&cards));
}

#[test]
fn test_valid_escala_with_joker_gap() {
    let cards = vec![
        sc(Suit::Hearts, Value::Three),
        sc(Suit::Hearts, Value::Four),
        Card::Joker,
        sc(Suit::Hearts, Value::Six),
    ];
    assert!(is_valid_escala(&cards));
}

// The Ace ranks above the King only: K-A-2-3 does not wrap.
#[test]
fn test_valid_escala_wrapping_k_a_2() {
    let cards = vec![
        sc(Suit::Spades, Value::King),
        sc(Suit::Spades, Value::Ace),
        sc(Suit::Spades, Value::Two),
        sc(Suit::Spades, Value::Three),
    ];
    assert!(!is_valid_escala(&cards));
}

#[test]
fn short_groups_are_no_melds() {
    assert!(!is_valid_trio(&[sc(Suit::Hearts, Value::Five), sc(Suit::Clubs, Value::Five)]));
    assert!(!is_valid_escala(&[
        sc(Suit::Hearts, Value::Three),
        sc(Suit::Hearts, Value::Four),
        sc(Suit::Hearts, Value::Five),
    ]));
    assert!(!is_valid_trio(&[]));
    assert!(!is_valid_escala(&[]));
}

#[test]
fn escala_rules_suit_duplicates_and_jokers() {
    // mixed suits
    assert!(!is_valid_escala(&[
        sc(Suit::Hearts, Value::Three),
        sc(Suit::Clubs, Value::Four),
        sc(Suit::Hearts, Value::Five),
        sc(Suit::Hearts, Value::Six),
    ]));
    // a repeated rank
    assert!(!is_valid_escala(&[
        sc(Suit::Hearts, Value::Three),
        sc(Suit::Hearts, Value::Four),
        sc(Suit::Hearts, Value::Four),
        sc(Suit::Hearts, Value::Five),
    ]));
    // two jokers
    assert!(!is_valid_escala(&[
        sc(Suit::Hearts, Value::Three),
        Card::Joker,
        Card::Joker,
        sc(Suit::Hearts, Value::Six),
    ]));
    // a gap of two ranks cannot be filled by one joker
    assert!(!is_valid_escala(&[
        sc(Suit::Hearts, Value::Three),
        Card::Joker,
        sc(Suit::Hearts, Value::Six),
        sc(Suit::Hearts, Value::Seven),
    ]));
    // J-Q-K-A, Ace high
    assert!(is_valid_escala(&[
        sc(Suit::Clubs, Value::Jack),
        sc(Suit::Clubs, Value::Queen),
        sc(Suit::Clubs, Value::King),
        sc(Suit::Clubs, Value::Ace),
    ]));
    // a joker at an end
    assert!(is_valid_escala(&[
        sc(Suit::Clubs, Value::Three),
        sc(Suit::Clubs, Value::Four),
        sc(Suit::Clubs, Value::Five),
        Card::Joker,
    ]));
    // out of order
    assert!(!is_valid_escala(&[
        sc(Suit::Clubs, Value::Four),
        sc(Suit::Clubs, Value::Three),
        sc(Suit::Clubs, Value::Five),
        sc(Suit::Clubs, Value::Six),
    ]));
}

#[test]
fn escala_real_of_thirteen_cards() {
    let values = [
        Value::Two,
        Value::Three,
        Value::Four,
        Value::Five,
        Value::Six,
        Value::Seven,
        Value::Eight,
        Value::Nine,
        Value::Ten,
        Value::Jack,
        Value::Queen,
        Value::King,
        Value::Ace,
    ];
    let full: Vec<Card> = values.iter().map(|v| sc(Suit::Diamonds, *v)).collect();
    assert!(is_valid_escala(&full));
    let mut with_joker = full.clone();
    with_joker[6] = Card::Joker;
    assert!(is_valid_escala(&with_joker));
}

#[test]
fn trio_of_more_cards_and_same_rank_different_suits() {
    assert!(is_valid_trio(&[
        sc(Suit::Hearts, Value::King),
        sc(Suit::Hearts, Value::King),
        sc(Suit::Clubs, Value::King),
        sc(Suit::Spades, Value::King),
    ]));
}

#[test]
fn escala_jokers_stay_inside_two_to_ace() {
    // a joker below the Two or above the Ace is no rank
    assert!(!is_valid_escala(&[Card::Joker, sc(Suit::Hearts, Value::Two), sc(Suit::Hearts, Value::Three), sc(Suit::Hearts, Value::Four)]));
    assert!(!is_valid_escala(&[sc(Suit::Hearts, Value::Queen), sc(Suit::Hearts, Value::King), sc(Suit::Hearts, Value::Ace), Card::Joker]));
    assert!(is_valid_escala(&[Card::Joker, sc(Suit::Hearts, Value::Three), sc(Suit::Hearts, Value::Four), sc(Suit::Hearts, Value::Five)]));
}
