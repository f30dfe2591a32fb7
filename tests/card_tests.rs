use carioca::card::{Card, Suit, Value};
use carioca::deck::Deck;
use carioca::points::calculate_hand_points;

#[test]
fn test_card_points() {
    let ace_spades = Card::Standard { suit: Suit::Spades, value: Value::Ace };
    assert_eq!(ace_spades.points(), 20);

    let seven_hearts = Card::Standard { suit: Suit::Hearts, value: Value::Seven };
    assert_eq!(seven_hearts.points(), 7);

    let jack_clubs = Card::Standard { suit: Suit::Clubs, value: Value::Jack };
    assert_eq!(jack_clubs.points(), 10);

    let joker = Card::Joker;
    assert_eq!(joker.points(), 50);
}

#[test]
fn test_calculate_points() {
    let hand = vec![
        Card::Standard { suit: Suit::Hearts, value: Value::Two },
        Card::Standard { suit: Suit::Spades, value: Value::Ten },
        Card::Joker,
        Card::Standard { suit: Suit::Diamonds, value: Value::Ace },
    ];
    assert_eq!(calculate_hand_points(&hand), 82);
}

#[test]
fn test_deck_creation() {
    let deck = Deck::new();
    assert_eq!(deck.remaining(), 108);

    let jokers = deck.cards.iter().filter(|c| c.is_joker()).count();
    assert_eq!(jokers, 4);
}

#[test]
fn test_deck_draw() {
    let mut deck = Deck::new();
    let initial_len = deck.remaining();

    let card = deck.draw();
    assert!(card.is_some());
    assert_eq!(deck.remaining(), initial_len - 1);
}

#[test]
fn value_points_and_ranks() {
    assert_eq!(Value::Two.points(), 2);
    assert_eq!(Value::Ten.points(), 10);
    assert_eq!(Value::Queen.points(), 10);
    assert_eq!(Value::King.points(), 10);
    assert_eq!(Value::Two.rank(), 2);
    assert_eq!(Value::King.rank(), 13);
    assert_eq!(Value::Ace.rank(), 14);
}

#[test]
fn empty_hand_scores_zero() {
    assert_eq!(calculate_hand_points(&[]), 0);
}

#[test]
fn canonical_deck_order_and_content() {
    let deck = Deck::new();
    assert_eq!(deck.cards[0], Card::Standard { suit: Suit::Hearts, value: Value::Two });
    assert_eq!(deck.cards[12], Card::Standard { suit: Suit::Hearts, value: Value::Ace });
    assert_eq!(deck.cards[13], Card::Standard { suit: Suit::Diamonds, value: Value::Two });
    assert_eq!(deck.cards[52], Card::Joker);
    assert_eq!(deck.cards[53], Card::Joker);
    assert_eq!(deck.cards[54], Card::Standard { suit: Suit::Hearts, value: Value::Two });
    assert_eq!(deck.cards[107], Card::Joker);
    let sevens = deck
        .cards
        .iter()
        .filter(|c| **c == Card::Standard { suit: Suit::Clubs, value: Value::Seven })
        .count();
    assert_eq!(sevens, 2);
}

#[test]
fn shuffle_keeps_the_cards_and_moves_them() {
    let canonical = Deck::new();
    let mut moved = false;
    for _ in 0..3 {
        let mut deck = Deck::new();
        deck.shuffle();
        assert_eq!(deck.remaining(), 108);
        let mut a = deck.cards.clone();
        let mut b = canonical.cards.clone();
        a.sort_by_key(|c| format!("{:?}", c));
        b.sort_by_key(|c| format!("{:?}", c));
        assert_eq!(a, b);
        if deck.cards != canonical.cards {
            moved = true;
        }
    }
    assert!(moved);
}

#[test]
fn draw_from_empty_deck_is_none() {
    let mut deck = Deck::new();
    for _ in 0..108 {
        assert!(deck.draw().is_some());
    }
    assert_eq!(deck.draw(), None);
    assert_eq!(deck.remaining(), 0);
}

#[test]
fn card_labels() {
    assert_eq!(Card::Standard { suit: Suit::Diamonds, value: Value::Seven }.label(), "7♦");
    assert_eq!(Card::Standard { suit: Suit::Spades, value: Value::Ten }.label(), "10♠");
    assert_eq!(Card::Standard { suit: Suit::Hearts, value: Value::Ace }.label(), "A♥");
    assert_eq!(Card::Joker.label(), "🃏");
    assert_eq!(Suit::Clubs.symbol(), "♣");
    assert_eq!(Value::Queen.symbol(), "Q");
}
