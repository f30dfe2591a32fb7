use carioca::card::{Card, Suit, Value};
use carioca::game::{GameState, RoundType};

fn sc(suit: Suit, value: Value) -> Card {
    Card::Standard { suit, value }
}

fn two_player_game() -> GameState {
    GameState::new(vec!["alice".to_string(), "bob".to_string()])
}

/// A two-player game (alice = 0, bob = 1) where alice has already dropped a
/// trio of Fives, is on a later turn and has drawn; bob has 3-4-5-6 of
/// Diamonds on the table.
fn game_with_alice_bajado() -> GameState {
    let mut game = two_player_game();
    game.start_round();

    game.players[0].hand = vec![
        sc(Suit::Hearts, Value::Seven),
        sc(Suit::Clubs, Value::Two),
        sc(Suit::Spades, Value::Three),
    ];
    game.players[0].has_dropped_hand = true;
    game.players[0].dropped_combinations = vec![vec![
        sc(Suit::Hearts, Value::Five),
        sc(Suit::Clubs, Value::Five),
        sc(Suit::Spades, Value::Five),
    ]];
    game.players[0].turns_played = 1;

    game.players[1].has_dropped_hand = true;
    game.players[1].dropped_combinations = vec![vec![
        sc(Suit::Diamonds, Value::Three),
        sc(Suit::Diamonds, Value::Four),
        sc(Suit::Diamonds, Value::Five),
        sc(Suit::Diamonds, Value::Six),
    ]];

    game.current_turn = 0;
    game.players[0].has_drawn_this_turn = true;
    game
}

#[test]
fn test_game_initialization() {
    let mut game = two_player_game();

    assert_eq!(game.players.len(), 2);
    assert_eq!(game.current_round, RoundType::TwoTrios);
    assert_eq!(game.round_index, 0);

    game.start_round();

    assert_eq!(game.players[0].hand.len(), 12);
    assert_eq!(game.players[1].hand.len(), 12);
    assert_eq!(game.discard_pile.len(), 1);
    assert_eq!(game.deck.remaining(), 83);
}

#[test]
fn test_valid_turn_progression() {
    let mut game = two_player_game();
    game.start_round();

    assert_eq!(game.current_turn, 0);

    assert!(game.draw_from_deck().is_ok());
    assert_eq!(game.players[0].hand.len(), 13);

    assert!(game.discard(0).is_ok());
    assert_eq!(game.players[0].hand.len(), 12);
    assert_eq!(game.discard_pile.len(), 2);

    assert_eq!(game.current_turn, 1);
}

#[test]
fn test_4_player_initialization() {
    let players = vec!["p1".to_string(), "p2".to_string(), "p3".to_string(), "p4".to_string()];
    let mut game = GameState::new(players);
    game.start_round();

    assert_eq!(game.players.len(), 4);
    for i in 0..4 {
        assert_eq!(game.players[i].hand.len(), 12);
    }
    assert_eq!(game.discard_pile.len(), 1);
    assert_eq!(game.deck.remaining(), 59);

    assert_eq!(game.current_turn, 0);
    assert!(game.draw_from_deck().is_ok());
    assert!(game.discard(0).is_ok());
    assert_eq!(game.current_turn, 1);
}

#[test]
fn shed_card_extends_own_trio() {
    let mut game = game_with_alice_bajado();

    game.players[0].hand.push(sc(Suit::Diamonds, Value::Five));
    let five_idx = game.players[0].hand.len() - 1;

    let result = game.shed_card("alice", five_idx, "alice", 0);
    assert!(result.is_ok(), "Should shed a matching Five onto town trio");

    assert_eq!(game.players[0].dropped_combinations[0].len(), 4);
    assert_eq!(game.players[0].hand.len(), 3);
}

#[test]
fn shed_card_extends_opponent_escala_right() {
    let mut game = game_with_alice_bajado();

    game.players[0].hand = vec![sc(Suit::Diamonds, Value::Seven), sc(Suit::Clubs, Value::King)];
    let result = game.shed_card("alice", 0, "bob", 0);
    assert!(result.is_ok(), "Should shed 7♦ onto bob's escala");
    assert_eq!(game.players[1].dropped_combinations[0].len(), 5);
    assert_eq!(
        game.players[1].dropped_combinations[0].last().unwrap(),
        &sc(Suit::Diamonds, Value::Seven)
    );
    assert_eq!(game.players[0].hand.len(), 1);
}

#[test]
fn shed_card_extends_opponent_escala_left() {
    let mut game = game_with_alice_bajado();

    game.players[0].hand = vec![sc(Suit::Diamonds, Value::Two), sc(Suit::Clubs, Value::King)];
    let result = game.shed_card("alice", 0, "bob", 0);
    assert!(result.is_ok(), "Should shed 2♦ onto bob's escala on the left");
    assert_eq!(game.players[1].dropped_combinations[0].len(), 5);
    assert_eq!(
        game.players[1].dropped_combinations[0].first().unwrap(),
        &sc(Suit::Diamonds, Value::Two)
    );
}

// The Ace ranks above the King only, so nothing goes below a Two: the Ace
// cannot extend 2-3-4-5 on the left.
#[test]
fn shed_ace_left_on_escala_starting_with_two() {
    let mut game = game_with_alice_bajado();

    game.players[1].dropped_combinations = vec![vec![
        sc(Suit::Diamonds, Value::Two),
        sc(Suit::Diamonds, Value::Three),
        sc(Suit::Diamonds, Value::Four),
        sc(Suit::Diamonds, Value::Five),
    ]];

    game.players[0].hand = vec![sc(Suit::Diamonds, Value::Ace), sc(Suit::Clubs, Value::King)];

    let result = game.shed_card("alice", 0, "bob", 0);
    assert!(result.is_err(), "A♦ must not go below bob's 2-3-4-5♦ escala");
    assert_eq!(result.unwrap_err(), "This card cannot be shed onto that combo");
    assert_eq!(game.players[1].dropped_combinations[0].len(), 4);
    assert_eq!(
        game.players[1].dropped_combinations[0].first().unwrap(),
        &sc(Suit::Diamonds, Value::Two)
    );
}

#[test]
fn shed_card_rejected_before_bajada() {
    let mut game = two_player_game();
    game.start_round();
    game.players[0].hand = vec![sc(Suit::Diamonds, Value::Seven)];
    game.players[0].has_dropped_hand = false;
    game.current_turn = 0;

    game.players[1].has_dropped_hand = true;
    game.players[1].dropped_combinations = vec![vec![
        sc(Suit::Diamonds, Value::Five),
        sc(Suit::Diamonds, Value::Six),
        sc(Suit::Diamonds, Value::Eight),
        sc(Suit::Diamonds, Value::Nine),
    ]];

    let result = game.shed_card("alice", 0, "bob", 0);
    assert!(result.is_err());
    assert_eq!(result.unwrap_err(), "You must drop your hand before shedding cards");
}

#[test]
fn shed_card_rejected_for_invalid_card() {
    let mut game = game_with_alice_bajado();

    game.players[0].hand = vec![sc(Suit::Hearts, Value::Seven)];
    let result = game.shed_card("alice", 0, "bob", 0);
    assert!(result.is_err());
    assert_eq!(result.unwrap_err(), "This card cannot be shed onto that combo");
}
