use carioca::card::{Card, Suit, Value};
use carioca::events::{ClientMessage, DiscardPayload, ReorderHandPayload, ServerMessage};
use carioca::game::{GameState, RoundType};
use carioca::room::{RoomCore, RoomInput};
use carioca::rules::{is_valid_escala, is_valid_trio};

fn sc(suit: Suit, value: Value) -> Card {
    Card::Standard { suit, value }
}

fn started(ids: &[&str]) -> GameState {
    let mut game = GameState::new(ids.iter().map(|s| s.to_string()).collect());
    game.start_round();
    game
}

fn total_cards(game: &GameState) -> usize {
    game.deck.remaining()
        + game.discard_pile.len()
        + game
            .players
            .iter()
            .map(|p| p.hand.len() + p.dropped_combinations.iter().map(|m| m.len()).sum::<usize>())
            .sum::<usize>()
}

#[test]
fn round_schedule_requirements() {
    let reqs: Vec<(usize, usize)> = RoundType::all_rounds().iter().map(|r| r.get_requirements()).collect();
    assert_eq!(reqs, vec![(2, 0), (1, 1), (0, 2), (3, 0), (2, 1), (1, 2), (0, 3), (4, 0), (0, 1)]);
    assert_eq!(RoundType::TwoTrios.description(), "2 Tríos (6 cards)");
    assert_eq!(RoundType::EscalaReal.description(), "Escala Real (13 cards, same suit)");
}

#[test]
fn fresh_two_player_round_and_simple_turn() {
    let mut game = started(&["alice", "bob"]);
    assert_eq!(game.players[0].hand.len(), 12);
    assert_eq!(game.players[1].hand.len(), 12);
    assert_eq!(game.discard_pile.len(), 1);
    assert_eq!(game.deck.remaining(), 83);
    assert_eq!(game.current_turn, 0);
    assert_eq!(total_cards(&game), 108);

    game.draw_from_deck().unwrap();
    assert_eq!(game.players[0].hand.len(), 13);
    assert_eq!(game.discard(0).unwrap().is_none(), true);
    assert_eq!(game.players[0].hand.len(), 12);
    assert_eq!(game.discard_pile.len(), 2);
    assert_eq!(game.current_turn, 1);
    assert_eq!(total_cards(&game), 108);
}

#[test]
fn turn_errors() {
    let mut game = started(&["alice", "bob"]);
    assert_eq!(game.discard(0).unwrap_err(), "You must draw a card before discarding");
    game.draw_from_deck().unwrap();
    assert_eq!(game.draw_from_deck().unwrap_err(), "You have already drawn a card this turn");
    assert_eq!(game.draw_from_discard().unwrap_err(), "You have already drawn a card this turn");
    assert_eq!(game.discard(13).unwrap_err(), "Card index out of bounds");
    assert_eq!(game.deck.remaining(), 82);
    let hand_before = game.players[1].hand.clone();
    game.discard(0).unwrap();
    // only the player to play touched their hand
    assert_eq!(game.players[1].hand, hand_before);
    game.is_game_over = true;
    assert_eq!(game.draw_from_deck().unwrap_err(), "Game is over");
    game.is_game_over = false;
    game.is_waiting_for_next_round = true;
    assert_eq!(
        game.draw_from_discard().unwrap_err(),
        "Waiting for other players to be ready for the next round"
    );
}

#[test]
fn draw_from_discard_rules() {
    let mut game = started(&["alice", "bob"]);
    let top = *game.discard_pile.last().unwrap();
    game.draw_from_discard().unwrap();
    assert_eq!(*game.players[0].hand.last().unwrap(), top);
    assert!(game.discard_pile.is_empty());
    let mut game = started(&["alice", "bob"]);
    game.discard_pile.clear();
    assert_eq!(game.draw_from_discard().unwrap_err(), "Discard pile is empty");
    let mut game = started(&["alice", "bob"]);
    game.players[0].has_dropped_hand = true;
    assert_eq!(game.draw_from_discard().unwrap_err(), "Cannot draw from discard after dropping hand");
    let mut game = started(&["alice", "bob"]);
    game.deck.cards.clear();
    assert_eq!(game.draw_from_deck().unwrap_err(), "Deck is empty");
}

#[test]
fn reorder_hand_checks_the_cards() {
    let mut game = started(&["alice", "bob"]);
    let hand = game.players[1].hand.clone();
    // the same order is a no-op
    game.reorder_hand("bob", hand.clone()).unwrap();
    assert_eq!(game.players[1].hand, hand);
    let mut reversed = hand.clone();
    reversed.reverse();
    game.reorder_hand("bob", reversed.clone()).unwrap();
    assert_eq!(game.players[1].hand, reversed);
    let mut shorter = hand.clone();
    shorter.pop();
    assert_eq!(
        game.reorder_hand("bob", shorter).unwrap_err(),
        "New hand length does not match current hand length"
    );
    let mut other = reversed.clone();
    other[0] = if other[0] == Card::Joker { sc(Suit::Hearts, Value::Two) } else { Card::Joker };
    if other[0] != reversed[0] {
        let count = |h: &Vec<Card>, c: Card| h.iter().filter(|x| **x == c).count();
        if count(&other, other[0]) > count(&reversed, other[0]) {
            assert_eq!(
                game.reorder_hand("bob", other).unwrap_err(),
                "New hand contains an unknown card or extra duplicate"
            );
        }
    }
    assert_eq!(game.reorder_hand("carol", hand).unwrap_err(), "Player not found");
    assert_eq!(game.players[1].hand, reversed);
}

fn set_hand(game: &mut GameState, seat: usize, hand: Vec<Card>) {
    // keep exactly one deck's worth of cards: the old hand goes back to the
    // deck, and each new card is taken from wherever it is
    let old = std::mem::replace(&mut game.players[seat].hand, Vec::new());
    game.deck.cards.extend(old);
    for c in &hand {
        if let Some(pos) = game.deck.cards.iter().position(|x| x == c) {
            game.deck.cards.remove(pos);
            continue;
        }
        let spare = game.deck.cards.pop().unwrap();
        if let Some(pos) = game.discard_pile.iter().position(|x| x == c) {
            game.discard_pile[pos] = spare;
            continue;
        }
        let mut placed = false;
        for (j, p) in game.players.iter_mut().enumerate() {
            if j == seat {
                continue;
            }
            if let Some(pos) = p.hand.iter().position(|x| x == c) {
                p.hand[pos] = spare;
                placed = true;
                break;
            }
        }
        assert!(placed);
    }
    game.players[seat].hand = hand;
}

#[test]
fn drop_hand_validates_and_moves_the_cards() {
    let mut game = started(&["alice", "bob"]);
    let mut hand = vec![
        sc(Suit::Hearts, Value::Five),
        sc(Suit::Clubs, Value::Five),
        sc(Suit::Spades, Value::Five),
        sc(Suit::Hearts, Value::Nine),
        sc(Suit::Clubs, Value::Nine),
        Card::Joker,
        sc(Suit::Hearts, Value::Two),
    ];
    set_hand(&mut game, 0, hand.clone());
    assert_eq!(total_cards(&game), 108);
    let trio_a = vec![hand[0], hand[1], hand[2]];
    let trio_b = vec![hand[3], hand[4], hand[5]];
    assert_eq!(
        game.drop_hand("alice", vec![trio_a.clone(), trio_b.clone()]).unwrap_err(),
        "You must draw a card before trying to drop your hand"
    );
    game.draw_from_deck().unwrap();
    assert_eq!(game.drop_hand("bob", vec![trio_a.clone()]).unwrap_err(), "Not your turn");
    assert_eq!(
        game.drop_hand("alice", vec![trio_a.clone()]).unwrap_err(),
        "Combinations do not match the current round requirements"
    );
    assert_eq!(
        game.drop_hand("alice", vec![trio_a.clone(), vec![hand[6], hand[6], hand[6]]]).unwrap_err(),
        "Combinations contain cards not in player's hand"
    );
    assert_eq!(
        game.drop_hand("alice", vec![trio_a.clone(), vec![hand[3], hand[4], hand[6]]]).unwrap_err(),
        "Invalid combination: trios must be at least 3 cards, escalas at least 4"
    );
    game.drop_hand("alice", vec![trio_a.clone(), trio_b.clone()]).unwrap();
    hand.truncate(0);
    assert_eq!(game.players[0].hand.len(), 2);
    assert!(game.players[0].has_dropped_hand);
    assert_eq!(game.players[0].dropped_combinations, vec![trio_a.clone(), trio_b.clone()]);
    assert_eq!(total_cards(&game), 108);
    assert_eq!(game.drop_hand("alice", vec![trio_a, trio_b]).unwrap_err(), "Hand already dropped");
    // no shedding on the turn of the bajada
    assert_eq!(
        game.shed_card("alice", 0, "alice", 0).unwrap_err(),
        "You cannot shed cards on the same turn you drop your hand"
    );
}

#[test]
fn shed_target_errors() {
    let mut game = started(&["alice", "bob"]);
    game.players[0].has_dropped_hand = true;
    game.players[0].has_drawn_this_turn = true;
    assert_eq!(game.shed_card("alice", 0, "carol", 0).unwrap_err(), "Target player not found");
    assert_eq!(
        game.shed_card("alice", 0, "bob", 0).unwrap_err(),
        "Target player has not dropped their hand yet"
    );
    game.players[1].has_dropped_hand = true;
    assert_eq!(game.shed_card("alice", 0, "bob", 0).unwrap_err(), "Target combo index out of bounds");
    assert_eq!(game.shed_card("alice", 99, "bob", 0).unwrap_err(), "Card index out of bounds");
    assert_eq!(game.shed_card("bob", 0, "bob", 0).unwrap_err(), "Not your turn");
    game.players[0].has_drawn_this_turn = false;
    assert_eq!(game.shed_card("alice", 0, "bob", 0).unwrap_err(), "You must draw a card before shedding cards");
}

#[test]
fn last_discard_ends_the_round_and_scores() {
    let mut game = started(&["alice", "bob"]);
    set_hand(&mut game, 0, vec![sc(Suit::Hearts, Value::Two)]);
    set_hand(&mut game, 1, vec![sc(Suit::Clubs, Value::Ace), Card::Joker, sc(Suit::Spades, Value::Seven)]);
    game.players[0].has_drawn_this_turn = true;
    game.players[1].points = 10;
    let res = game.discard(0).unwrap().unwrap();
    assert_eq!(res.winner_id, "alice");
    assert_eq!(res.finished_round_index, 0);
    assert_eq!(res.finished_round_name, "2 Tríos (6 cards)");
    assert_eq!(res.next_round_index, 1);
    assert_eq!(res.next_round_name, "1 Trío, 1 Escala (7 cards)");
    assert!(!res.is_game_over);
    assert_eq!(res.player_scores, vec![("alice".to_string(), 0, 0), ("bob".to_string(), 77, 87)]);
    assert_eq!(game.players[1].points, 87);
    assert!(game.is_waiting_for_next_round);
    assert_eq!(game.round_index, 1);
    assert_eq!(game.current_round, RoundType::OneTrioOneEscala);
    assert_eq!(game.current_turn, 1);
    // nothing is played until everyone is ready
    assert!(game.draw_from_deck().is_err());
    assert_eq!(game.mark_player_ready("carol").unwrap_err(), "Player not found");
    game.mark_player_ready("alice").unwrap();
    assert!(game.is_waiting_for_next_round);
    game.mark_player_ready("bob").unwrap();
    assert!(!game.is_waiting_for_next_round);
    assert_eq!(game.players[0].hand.len(), 12);
    assert_eq!(game.players[1].points, 87);
    assert_eq!(total_cards(&game), 108);
    assert_eq!(game.mark_player_ready("bob").unwrap_err(), "Game is not waiting for next round");
}

#[test]
fn ninth_round_ends_the_game() {
    let mut game = started(&["alice", "bot_easy"]);
    game.round_index = 8;
    game.current_round = RoundType::EscalaReal;
    set_hand(&mut game, 0, vec![sc(Suit::Hearts, Value::Two)]);
    game.players[0].has_drawn_this_turn = true;
    let res = game.discard(0).unwrap().unwrap();
    assert!(res.is_game_over);
    assert_eq!(res.next_round_name, "Game Over");
    assert_eq!(res.next_round_index, 9);
    assert!(game.is_game_over);
    assert_eq!(game.draw_from_deck().unwrap_err(), "Game is over");
}

#[test]
fn bot_seats_are_ready_at_round_end() {
    let mut game = started(&["alice", "bot_hard"]);
    set_hand(&mut game, 0, vec![sc(Suit::Hearts, Value::Two)]);
    game.players[0].has_drawn_this_turn = true;
    game.discard(0).unwrap().unwrap();
    assert!(!game.players[0].is_ready_for_next_round);
    assert!(game.players[1].is_ready_for_next_round);
    game.mark_player_ready("alice").unwrap();
    assert!(!game.is_waiting_for_next_round);
}

fn messages_to<'a>(sends: &'a [carioca::room::Outgoing], who: &str) -> Vec<&'a ServerMessage> {
    sends.iter().filter(|o| o.to == who).map(|o| &o.message).collect()
}

#[test]
fn room_announces_the_round_end_before_the_new_state() {
    let mut game = started(&["alice", "bob"]);
    set_hand(&mut game, 0, vec![sc(Suit::Hearts, Value::Two)]);
    game.players[0].has_drawn_this_turn = true;
    let bob_points: u32 = game.players[1].hand.iter().map(|c| c.points()).sum();
    let mut room = RoomCore::from_game("r1".to_string(), game);
    room.handle(RoomInput::PlayerJoined("alice".to_string()));
    let step = room.handle(RoomInput::PlayerJoined("bob".to_string()));
    assert_eq!(step.sends.len(), 2);

    // a move out of turn is refused
    let step = room.handle(RoomInput::PlayerAction("bob".to_string(), ClientMessage::DrawFromDeck));
    match messages_to(&step.sends, "bob")[0] {
        ServerMessage::Error { message } => assert_eq!(message, "Not your turn"),
        other => panic!("Unexpected message {:?}", other),
    }

    // alice discards her last card
    let step = room.handle(RoomInput::PlayerAction(
        "alice".to_string(),
        ClientMessage::Discard { payload: DiscardPayload { card_index: 0 } },
    ));
    for who in ["alice", "bob"] {
        let msgs = messages_to(&step.sends, who);
        assert_eq!(msgs.len(), 2);
        match msgs[0] {
            ServerMessage::RoundEnded { round_index, winner_id, player_scores, next_round_index, is_game_over, .. } => {
                assert_eq!(*round_index, 0);
                assert_eq!(winner_id, "alice");
                assert_eq!(*next_round_index, 1);
                assert!(!is_game_over);
                assert_eq!(player_scores[0].round_points, 0);
                assert_eq!(player_scores[1].id, "bob");
                assert_eq!(player_scores[1].round_points, bob_points);
                assert_eq!(player_scores[1].total_points, bob_points);
            }
            other => panic!("Unexpected message {:?}", other),
        }
        assert!(matches!(msgs[1], ServerMessage::GameStateUpdate { .. }));
    }
    assert!(room.game().is_waiting_for_next_round);

    // nothing is played until every seat is ready
    let step = room.handle(RoomInput::PlayerAction("bob".to_string(), ClientMessage::DrawFromDeck));
    match messages_to(&step.sends, "bob")[0] {
        ServerMessage::Error { message } => {
            assert_eq!(message, "Waiting for other players to be ready for the next round")
        }
        other => panic!("Unexpected message {:?}", other),
    }
    room.handle(RoomInput::PlayerAction("alice".to_string(), ClientMessage::MarkReady));
    assert!(room.game().is_waiting_for_next_round);
    let step = room.handle(RoomInput::PlayerAction("bob".to_string(), ClientMessage::MarkReady));
    assert!(!room.game().is_waiting_for_next_round);
    assert_eq!(room.game().round_index, 1);
    match messages_to(&step.sends, "alice")[0] {
        ServerMessage::GameStateUpdate { my_hand, current_round_index, required_trios, required_escalas, .. } => {
            assert_eq!(my_hand.len(), 12);
            assert_eq!(*current_round_index, 1);
            assert_eq!((*required_trios, *required_escalas), (1, 1));
        }
        other => panic!("Unexpected message {:?}", other),
    }
}

#[test]
fn room_asks_bots_to_play_once() {
    let mut room = RoomCore::new("r2".to_string(), vec!["alice".to_string(), "bot_medium_1".to_string()]);
    room.handle(RoomInput::PlayerJoined("alice".to_string()));
    room.handle(RoomInput::PlayerAction("alice".to_string(), ClientMessage::DrawFromDeck));
    let step = room.handle(RoomInput::PlayerAction(
        "alice".to_string(),
        ClientMessage::Discard { payload: DiscardPayload { card_index: 0 } },
    ));
    let req = step.bot.expect("the bot seat is to play");
    assert_eq!(req.player_id, "bot_medium_1");
    assert_eq!(req.difficulty, carioca::bot::BotDifficulty::Medium);
    // no second request while one is pending
    let step = room.handle(RoomInput::PlayerJoined("alice".to_string()));
    assert!(step.bot.is_none());
    // the bot's own action clears the pending flag
    let step = room.handle(RoomInput::PlayerAction("bot_medium_1".to_string(), ClientMessage::DrawFromDeck));
    assert!(step.bot.is_some());
}

#[test]
fn room_state_message_hides_other_hands() {
    let mut room = RoomCore::new("r3".to_string(), vec!["alice".to_string(), "bob".to_string()]);
    let step = room.handle(RoomInput::PlayerJoined("bob".to_string()));
    match &step.sends[0].message {
        ServerMessage::GameStateUpdate { my_hand, players, discard_pile_top, current_turn_index, .. } => {
            assert_eq!(my_hand, &room.game().players[1].hand);
            assert_eq!(players.len(), 2);
            assert_eq!(players[0].id, "alice");
            assert_eq!(players[0].hand_count, 12);
            assert_eq!(discard_pile_top, &room.game().discard_pile.last().cloned());
            assert_eq!(*current_turn_index, 0);
        }
        other => panic!("Unexpected message {:?}", other),
    }
    let step = room.handle(RoomInput::PlayerLeft("bob".to_string()));
    assert!(step.sends.is_empty());
}

#[test]
fn shed_melds_stay_valid() {
    let mut game = started(&["alice", "bob"]);
    game.players[0].has_dropped_hand = true;
    game.players[0].has_drawn_this_turn = true;
    game.players[1].has_dropped_hand = true;
    game.players[1].dropped_combinations = vec![
        vec![sc(Suit::Clubs, Value::Nine), Card::Joker, sc(Suit::Clubs, Value::Jack), sc(Suit::Clubs, Value::Queen)],
        vec![sc(Suit::Hearts, Value::Four), sc(Suit::Clubs, Value::Four), sc(Suit::Spades, Value::Four)],
    ];
    game.players[0].hand = vec![
        sc(Suit::Clubs, Value::King),
        sc(Suit::Clubs, Value::Eight),
        sc(Suit::Diamonds, Value::Four),
        Card::Joker,
        sc(Suit::Hearts, Value::Two),
    ];
    // King right, Eight left, Four on the trio, then the joker on the trio
    game.shed_card("alice", 0, "bob", 0).unwrap();
    game.shed_card("alice", 0, "bob", 0).unwrap();
    game.shed_card("alice", 0, "bob", 1).unwrap();
    game.shed_card("alice", 0, "bob", 1).unwrap();
    let melds = &game.players[1].dropped_combinations;
    assert_eq!(melds[0].len(), 6);
    assert_eq!(melds[0][0], sc(Suit::Clubs, Value::Eight));
    assert_eq!(melds[0][5], sc(Suit::Clubs, Value::King));
    assert!(is_valid_escala(&melds[0]));
    assert_eq!(melds[1].len(), 5);
    assert!(is_valid_trio(&melds[1]));
    // a second joker goes nowhere
    game.players[0].hand.push(Card::Joker);
    assert!(game.shed_card("alice", 1, "bob", 0).is_err());
    assert!(game.shed_card("alice", 1, "bob", 1).is_err());
    assert_eq!(game.players[0].hand.len(), 2);
}

#[test]
fn escala_real_takes_thirteen_cards() {
    let mut game = started(&["alice", "bob"]);
    game.current_round = RoundType::EscalaReal;
    game.round_index = 8;
    let short = vec![
        sc(Suit::Spades, Value::Three),
        sc(Suit::Spades, Value::Four),
        sc(Suit::Spades, Value::Five),
        sc(Suit::Spades, Value::Six),
    ];
    let mut hand = short.clone();
    hand.push(sc(Suit::Hearts, Value::Two));
    set_hand(&mut game, 0, hand);
    game.players[0].has_drawn_this_turn = true;
    assert_eq!(
        game.drop_hand("alice", vec![short]).unwrap_err(),
        "The Escala Real must be 13 cards of one suit"
    );
    assert!(!game.players[0].has_dropped_hand);
}
