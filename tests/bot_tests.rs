use carioca::bot::{detect_phase, play_bot_turn, BotDifficulty, BotTurnPhase};
use carioca::card::{Card, Suit, Value};
use carioca::events::ClientMessage;
use carioca::game::{GameState, PlayerState};

fn sc(suit: Suit, value: Value) -> Card {
    Card::Standard { suit, value }
}

fn make_player(hand: Vec<Card>, has_dropped: bool, turns_played: u32) -> PlayerState {
    // thirteen cards, or a bajada down: the turn's card is drawn
    let drawn = hand.len() == 13 || has_dropped;
    PlayerState {
        id: "bot_test".to_string(),
        hand,
        points: 0,
        has_dropped_hand: has_dropped,
        dropped_combinations: vec![],
        turns_played,
        has_drawn_this_turn: drawn,
        dropped_hand_this_turn: false,
        is_ready_for_next_round: false,
    }
}

/// A minimal game with `player` in seat 0, to play.
fn dummy_game_at_player(player: PlayerState) -> GameState {
    let mut game = GameState::new(vec!["bot_test".to_string(), "dummy_opponent".to_string()]);
    game.start_round();
    game.players[0] = player;
    game.current_turn = 0;
    game
}

fn two_trios_and_junk() -> Vec<Card> {
    vec![
        sc(Suit::Hearts, Value::Five),
        sc(Suit::Clubs, Value::Five),
        sc(Suit::Spades, Value::Five),
        sc(Suit::Hearts, Value::Nine),
        sc(Suit::Clubs, Value::Nine),
        sc(Suit::Diamonds, Value::Nine),
        sc(Suit::Hearts, Value::Two),
        sc(Suit::Clubs, Value::King),
        sc(Suit::Spades, Value::Ace),
        sc(Suit::Diamonds, Value::Jack),
        sc(Suit::Hearts, Value::Three),
        sc(Suit::Clubs, Value::Six),
        sc(Suit::Spades, Value::Queen),
    ]
}

#[test]
fn phase_detection_need_draw() {
    let player = make_player(vec![sc(Suit::Hearts, Value::Two); 12], false, 0);
    assert_eq!(detect_phase(&player), BotTurnPhase::NeedDraw);
}

#[test]
fn phase_detection_after_draw() {
    let player = make_player(vec![sc(Suit::Hearts, Value::Two); 13], false, 1);
    assert_eq!(detect_phase(&player), BotTurnPhase::AfterDraw);
}

#[test]
fn phase_detection_after_bajada() {
    let player = make_player(vec![sc(Suit::Hearts, Value::Three); 5], true, 3);
    assert_eq!(detect_phase(&player), BotTurnPhase::AfterBajada);
}

#[test]
fn easy_bot_produces_valid_discard_index() {
    let hand: Vec<Card> = (2..=13).map(|_| sc(Suit::Hearts, Value::Two)).collect();
    let player = make_player(hand, false, 1);
    let game = dummy_game_at_player(player);
    let action = play_bot_turn(&game, "bot_test", BotDifficulty::Easy);
    assert!(action.is_some());
    match action.unwrap() {
        ClientMessage::DrawFromDeck | ClientMessage::DrawFromDiscard => {}
        other => panic!("Expected draw action, got {:?}", other),
    }
}

#[test]
fn medium_bot_bajarse_when_ready() {
    let player = make_player(two_trios_and_junk(), false, 1);
    let game = dummy_game_at_player(player);
    let action = play_bot_turn(&game, "bot_test", BotDifficulty::Medium);
    assert!(action.is_some());
    match action.unwrap() {
        ClientMessage::DropHand { payload } => {
            assert_eq!(payload.combinations.len(), 2, "Should have 2 combinations");
        }
        other => panic!("Expected DropHand, got {:?}", other),
    }
}

#[test]
fn bot_cannot_bajarse_on_first_turn() {
    let player = make_player(two_trios_and_junk(), false, 0);
    let game = dummy_game_at_player(player);
    let action = play_bot_turn(&game, "bot_test", BotDifficulty::Medium);
    assert!(action.is_some());
    match action.unwrap() {
        ClientMessage::Discard { .. } => {}
        ClientMessage::DropHand { .. } => panic!("Should not bajarse on first turn"),
        other => panic!("Unexpected action {:?}", other),
    }
}

#[test]
fn hard_bot_defensive_discard_avoids_extending_opponent_trio() {
    let mut game = GameState::new(vec!["bot_test".to_string(), "opponent".to_string()]);
    game.start_round();

    game.players[1].has_dropped_hand = true;
    game.players[1].dropped_combinations = vec![vec![
        sc(Suit::Hearts, Value::Seven),
        sc(Suit::Clubs, Value::Seven),
        sc(Suit::Spades, Value::Seven),
    ]];

    let hand = vec![
        sc(Suit::Diamonds, Value::Seven),
        sc(Suit::Clubs, Value::Ace),
        sc(Suit::Hearts, Value::King),
        sc(Suit::Clubs, Value::Jack),
        sc(Suit::Spades, Value::Two),
        sc(Suit::Hearts, Value::Three),
        sc(Suit::Clubs, Value::Nine),
        sc(Suit::Diamonds, Value::Eight),
        sc(Suit::Hearts, Value::Six),
        sc(Suit::Spades, Value::Queen),
        sc(Suit::Clubs, Value::Four),
        sc(Suit::Diamonds, Value::Ten),
        sc(Suit::Hearts, Value::Five),
    ];
    game.players[0].hand = hand;
    game.players[0].turns_played = 2;
    game.players[0].has_drawn_this_turn = true;
    game.current_turn = 0;

    let action = play_bot_turn(&game, "bot_test", BotDifficulty::Hard);
    assert!(action.is_some());
    match action.unwrap() {
        ClientMessage::Discard { payload } => {
            assert_ne!(payload.card_index, 0, "Hard bot should avoid giving the 7♦ to opponent");
        }
        other => panic!("Unexpected action {:?}", other),
    }
}

#[test]
fn bot_waits_when_not_its_turn() {
    let player = make_player(two_trios_and_junk(), false, 1);
    let mut game = dummy_game_at_player(player);
    assert!(play_bot_turn(&game, "someone_else", BotDifficulty::Medium).is_none());
    game.current_turn = 1;
    assert!(play_bot_turn(&game, "bot_test", BotDifficulty::Medium).is_none());
}

#[test]
fn medium_bot_takes_a_useful_discard() {
    let mut player = make_player(two_trios_and_junk(), false, 1);
    player.hand.pop();
    player.has_drawn_this_turn = false;
    let mut game = dummy_game_at_player(player);
    // a third Two is worth 15: take it
    game.discard_pile = vec![sc(Suit::Spades, Value::Two)];
    match play_bot_turn(&game, "bot_test", BotDifficulty::Medium).unwrap() {
        ClientMessage::DrawFromDiscard => {}
        other => panic!("Unexpected action {:?}", other),
    }
    // an Eight of Spades adds nothing (the Five of Spades is three ranks away)
    game.discard_pile = vec![sc(Suit::Spades, Value::Eight)];
    match play_bot_turn(&game, "bot_test", BotDifficulty::Hard).unwrap() {
        ClientMessage::DrawFromDeck => {}
        other => panic!("Unexpected action {:?}", other),
    }
    game.discard_pile.clear();
    match play_bot_turn(&game, "bot_test", BotDifficulty::Medium).unwrap() {
        ClientMessage::DrawFromDeck => {}
        other => panic!("Unexpected action {:?}", other),
    }
}

#[test]
fn medium_bot_discards_the_loneliest_card() {
    // the Queen of Spades is the only card with no partner
    let hand = vec![
        sc(Suit::Hearts, Value::Five),
        sc(Suit::Clubs, Value::Five),
        sc(Suit::Hearts, Value::Six),
        sc(Suit::Spades, Value::Queen),
        sc(Suit::Hearts, Value::Seven),
    ];
    let player = make_player(hand, true, 2);
    let game = dummy_game_at_player(player);
    match play_bot_turn(&game, "bot_test", BotDifficulty::Medium).unwrap() {
        ClientMessage::Discard { payload } => assert_eq!(payload.card_index, 3),
        other => panic!("Unexpected action {:?}", other),
    }
}

#[test]
fn easy_bot_discard_stays_in_the_hand() {
    for _ in 0..20 {
        let player = make_player(vec![sc(Suit::Hearts, Value::Two), sc(Suit::Clubs, Value::Nine)], true, 2);
        let game = dummy_game_at_player(player);
        match play_bot_turn(&game, "bot_test", BotDifficulty::Easy).unwrap() {
            ClientMessage::Discard { payload } => assert!(payload.card_index < 2),
            other => panic!("Unexpected action {:?}", other),
        }
    }
}

#[test]
fn bot_bajada_is_accepted_by_the_game() {
    let player = make_player(two_trios_and_junk(), false, 1);
    let mut game = dummy_game_at_player(player);
    game.players[0].has_drawn_this_turn = true;
    let combos = match play_bot_turn(&game, "bot_test", BotDifficulty::Hard).unwrap() {
        ClientMessage::DropHand { payload } => payload.combinations,
        other => panic!("Unexpected action {:?}", other),
    };
    assert!(game.drop_hand("bot_test", combos).is_ok());
    assert_eq!(game.players[0].hand.len(), 7);
    assert!(game.players[0].has_dropped_hand);
}

#[test]
fn bajado_bot_draws_before_discarding() {
    let mut player = make_player(vec![sc(Suit::Hearts, Value::Three); 5], true, 3);
    player.has_drawn_this_turn = false;
    assert_eq!(detect_phase(&player), BotTurnPhase::NeedDraw);
    let game = dummy_game_at_player(player);
    match play_bot_turn(&game, "bot_test", BotDifficulty::Medium).unwrap() {
        ClientMessage::DrawFromDeck | ClientMessage::DrawFromDiscard => {}
        other => panic!("Unexpected action {:?}", other),
    }
}

#[test]
fn bot_waits_between_rounds() {
    let player = make_player(two_trios_and_junk(), false, 1);
    let mut game = dummy_game_at_player(player);
    game.is_waiting_for_next_round = true;
    assert!(play_bot_turn(&game, "bot_test", BotDifficulty::Medium).is_none());
}
