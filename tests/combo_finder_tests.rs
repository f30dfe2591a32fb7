use carioca::rules::is_valid_escala;
use carioca::card::{Card, Suit, Value};
use carioca::combo_finder::{
    can_shed, find_all_escala_candidates, find_all_trio_candidates, find_best_bajada,
    find_sheddable_cards, score_remaining_hand, HandMask, MeldCandidate, MeldType, ShedPosition,
};
use std::collections::HashSet;

fn sc(suit: Suit, value: Value) -> Card {
    Card::Standard { suit, value }
}

#[test]
fn trio_basic_3_of_same_value() {
    let hand = vec![
        sc(Suit::Hearts, Value::Five),
        sc(Suit::Clubs, Value::Five),
        sc(Suit::Spades, Value::Five),
    ];
    let candidates = find_all_trio_candidates(&hand);
    assert!(!candidates.is_empty(), "Should find at least one trio");
    assert!(candidates.iter().all(|c| c.meld_type == MeldType::Trio));
}

#[test]
fn trio_with_joker() {
    let hand = vec![sc(Suit::Hearts, Value::Five), sc(Suit::Clubs, Value::Five), Card::Joker];
    let candidates = find_all_trio_candidates(&hand);
    assert!(!candidates.is_empty(), "Should find joker-enhanced trio");
}

#[test]
fn trio_rejects_when_no_pair_plus_joker() {
    let hand = vec![sc(Suit::Hearts, Value::Five), Card::Joker];
    let candidates = find_all_trio_candidates(&hand);
    assert!(candidates.is_empty(), "Should not form trio with <2 standard cards");
}

#[test]
fn trio_double_deck_no_reuse() {
    let hand = vec![
        sc(Suit::Hearts, Value::Five),
        sc(Suit::Hearts, Value::Five),
        sc(Suit::Clubs, Value::Five),
    ];
    let candidates = find_all_trio_candidates(&hand);
    for c in &candidates {
        let unique: HashSet<usize> = c.card_indices.iter().cloned().collect();
        assert_eq!(unique.len(), c.card_indices.len(), "Candidate reuses a card index");
    }
}

#[test]
fn trio_masks_are_correct() {
    let hand = vec![
        sc(Suit::Hearts, Value::Seven),
        sc(Suit::Clubs, Value::Seven),
        sc(Suit::Spades, Value::Seven),
    ];
    let candidates = find_all_trio_candidates(&hand);
    assert!(candidates.iter().any(|c| c.mask == 0b111));
}

#[test]
fn escala_basic_4_consecutive() {
    let hand = vec![
        sc(Suit::Hearts, Value::Three),
        sc(Suit::Hearts, Value::Four),
        sc(Suit::Hearts, Value::Five),
        sc(Suit::Hearts, Value::Six),
    ];
    let candidates = find_all_escala_candidates(&hand);
    assert!(!candidates.is_empty(), "Should find the escala");
    assert!(candidates.iter().all(|c| c.meld_type == MeldType::Escala));
}

#[test]
fn escala_with_joker_gap() {
    let hand = vec![
        sc(Suit::Hearts, Value::Three),
        sc(Suit::Hearts, Value::Four),
        Card::Joker,
        sc(Suit::Hearts, Value::Six),
    ];
    let candidates = find_all_escala_candidates(&hand);
    assert!(!candidates.is_empty(), "Should find joker-gap escala");
}

#[test]
fn escala_rejects_mixed_suits() {
    let hand = vec![
        sc(Suit::Hearts, Value::Three),
        sc(Suit::Spades, Value::Four),
        sc(Suit::Hearts, Value::Five),
        sc(Suit::Hearts, Value::Six),
    ];
    let candidates = find_all_escala_candidates(&hand);
    for c in &candidates {
        if c.card_indices.contains(&1) {
            panic!("Escala candidate incorrectly includes a card of a different suit");
        }
    }
}

#[test]
fn escala_ace_high_only() {
    let hand = vec![
        sc(Suit::Hearts, Value::Jack),
        sc(Suit::Hearts, Value::Queen),
        sc(Suit::Hearts, Value::King),
        sc(Suit::Hearts, Value::Ace),
        sc(Suit::Hearts, Value::Two),
    ];
    let candidates = find_all_escala_candidates(&hand);
    assert!(
        candidates.iter().any(|c| {
            let mut idxs = c.card_indices.clone();
            idxs.sort();
            idxs == vec![0, 1, 2, 3]
        }),
        "Should find J-Q-K-A escala"
    );
    for c in &candidates {
        if c.card_indices.contains(&3) && c.card_indices.contains(&4) {
            panic!("Should not form K-A-2 or A-2 wrap escala");
        }
    }
}

#[test]
fn escala_no_duplicate_masks() {
    let hand = vec![
        sc(Suit::Clubs, Value::Two),
        sc(Suit::Clubs, Value::Three),
        sc(Suit::Clubs, Value::Four),
        sc(Suit::Clubs, Value::Five),
        sc(Suit::Clubs, Value::Six),
    ];
    let candidates = find_all_escala_candidates(&hand);
    let masks: Vec<HandMask> = candidates.iter().map(|c| c.mask).collect();
    let unique: HashSet<HandMask> = masks.iter().cloned().collect();
    assert_eq!(masks.len(), unique.len(), "Duplicate masks found in escala candidates");
}

#[test]
fn bajada_2_trios_round1() {
    let hand = vec![
        sc(Suit::Hearts, Value::Five),
        sc(Suit::Clubs, Value::Five),
        sc(Suit::Spades, Value::Five),
        sc(Suit::Hearts, Value::Nine),
        sc(Suit::Clubs, Value::Nine),
        sc(Suit::Diamonds, Value::Nine),
        sc(Suit::Hearts, Value::Two),
        sc(Suit::Clubs, Value::King),
        sc(Suit::Spades, Value::Ace),
        sc(Suit::Diamonds, Value::Jack),
        sc(Suit::Hearts, Value::Three),
        sc(Suit::Clubs, Value::Six),
    ];
    let result = find_best_bajada(&hand, 2, 0, false);
    assert!(result.is_some(), "Should find 2 trios for round 1");
    let melds = result.unwrap();
    assert_eq!(melds.len(), 2);
    assert_eq!(melds[0].mask & melds[1].mask, 0, "Melds overlap");
}

#[test]
fn bajada_1_trio_1_escala() {
    let hand = vec![
        sc(Suit::Hearts, Value::King),
        sc(Suit::Clubs, Value::King),
        sc(Suit::Spades, Value::King),
        sc(Suit::Spades, Value::Three),
        sc(Suit::Spades, Value::Four),
        sc(Suit::Spades, Value::Five),
        sc(Suit::Spades, Value::Six),
        sc(Suit::Hearts, Value::Two),
        sc(Suit::Clubs, Value::Queen),
        sc(Suit::Hearts, Value::Ace),
        sc(Suit::Diamonds, Value::Jack),
        sc(Suit::Clubs, Value::Ten),
    ];
    let result = find_best_bajada(&hand, 1, 1, false);
    assert!(result.is_some(), "Should find 1 trio + 1 escala");
    let melds = result.unwrap();
    assert_eq!(melds.len(), 2);
    let masks_or = melds[0].mask | melds[1].mask;
    let masks_and = melds[0].mask & melds[1].mask;
    assert_eq!(masks_and, 0, "Melds overlap");
    let _ = masks_or;
}

#[test]
fn bajada_returns_none_when_impossible() {
    let hand = vec![
        sc(Suit::Hearts, Value::Two),
        sc(Suit::Clubs, Value::Three),
        sc(Suit::Spades, Value::Four),
    ];
    let result = find_best_bajada(&hand, 2, 0, false);
    assert!(result.is_none(), "Shouldn't find 2 trios in 3 unrelated cards");
}

#[test]
fn bajada_no_card_reuse() {
    let hand = vec![
        sc(Suit::Hearts, Value::Five),
        sc(Suit::Clubs, Value::Five),
        sc(Suit::Spades, Value::Five),
        sc(Suit::Hearts, Value::Five),
        sc(Suit::Clubs, Value::Five),
        sc(Suit::Diamonds, Value::Seven),
        sc(Suit::Diamonds, Value::Eight),
        sc(Suit::Diamonds, Value::Nine),
        sc(Suit::Diamonds, Value::Ten),
        sc(Suit::Hearts, Value::King),
        sc(Suit::Clubs, Value::Ace),
        sc(Suit::Spades, Value::Two),
    ];
    let result = find_best_bajada(&hand, 2, 0, false);
    if let Some(melds) = result {
        let total_cards: usize = melds.iter().map(|m| m.card_indices.len()).sum();
        let unique: HashSet<usize> =
            melds.iter().flat_map(|m| m.card_indices.iter().cloned()).collect();
        assert_eq!(unique.len(), total_cards, "Card indices reused across melds");
    }
}

#[test]
fn bajada_medium_minimizes_points() {
    let hand = vec![
        sc(Suit::Hearts, Value::Five),
        sc(Suit::Clubs, Value::Five),
        sc(Suit::Spades, Value::Five),
        sc(Suit::Hearts, Value::Ace),
        sc(Suit::Clubs, Value::Ace),
        sc(Suit::Spades, Value::Ace),
        sc(Suit::Hearts, Value::Two),
        sc(Suit::Diamonds, Value::Two),
        sc(Suit::Clubs, Value::Two),
        sc(Suit::Spades, Value::King),
        sc(Suit::Hearts, Value::Queen),
        sc(Suit::Diamonds, Value::Jack),
    ];
    let result = find_best_bajada(&hand, 2, 0, true);
    assert!(result.is_some());
    let melds = result.unwrap();
    assert_eq!(melds.len(), 2);
    assert_eq!(melds[0].mask & melds[1].mask, 0);
}

#[test]
fn shed_extend_trio_right_value() {
    let meld = vec![
        sc(Suit::Hearts, Value::Seven),
        sc(Suit::Clubs, Value::Seven),
        sc(Suit::Spades, Value::Seven),
    ];
    let card = sc(Suit::Diamonds, Value::Seven);
    assert_eq!(can_shed(&card, &meld), Some(ShedPosition::TrioExtension));
}

#[test]
fn shed_rejects_wrong_value_on_trio() {
    let meld = vec![
        sc(Suit::Hearts, Value::Seven),
        sc(Suit::Clubs, Value::Seven),
        sc(Suit::Spades, Value::Seven),
    ];
    let card = sc(Suit::Diamonds, Value::Eight);
    assert_eq!(can_shed(&card, &meld), None);
}

#[test]
fn shed_extend_escala_right() {
    let meld = vec![
        sc(Suit::Hearts, Value::Three),
        sc(Suit::Hearts, Value::Four),
        sc(Suit::Hearts, Value::Five),
        sc(Suit::Hearts, Value::Six),
    ];
    let card = sc(Suit::Hearts, Value::Seven);
    assert_eq!(can_shed(&card, &meld), Some(ShedPosition::ExtendRight));
}

#[test]
fn shed_extend_escala_left() {
    let meld = vec![
        sc(Suit::Clubs, Value::Five),
        sc(Suit::Clubs, Value::Six),
        sc(Suit::Clubs, Value::Seven),
        sc(Suit::Clubs, Value::Eight),
    ];
    let card = sc(Suit::Clubs, Value::Four);
    assert_eq!(can_shed(&card, &meld), Some(ShedPosition::ExtendLeft));
}

#[test]
fn shed_rejects_wrong_suit_on_escala() {
    let meld = vec![
        sc(Suit::Hearts, Value::Three),
        sc(Suit::Hearts, Value::Four),
        sc(Suit::Hearts, Value::Five),
        sc(Suit::Hearts, Value::Six),
    ];
    let card = sc(Suit::Clubs, Value::Seven);
    assert_eq!(can_shed(&card, &meld), None);
}

#[test]
fn shed_rejects_second_joker_on_trio() {
    let meld = vec![sc(Suit::Hearts, Value::Seven), Card::Joker, sc(Suit::Spades, Value::Seven)];
    let joker = Card::Joker;
    assert_eq!(can_shed(&joker, &meld), None, "Should not allow 2nd joker in trio");
}

#[test]
fn shed_joker_and_ace_edges() {
    let run = vec![
        sc(Suit::Hearts, Value::Jack),
        sc(Suit::Hearts, Value::Queen),
        sc(Suit::Hearts, Value::King),
        sc(Suit::Hearts, Value::Ace),
    ];
    // nothing ranks above the Ace
    assert_eq!(can_shed(&sc(Suit::Hearts, Value::Two), &run), None);
    assert_eq!(can_shed(&sc(Suit::Hearts, Value::Ten), &run), Some(ShedPosition::ExtendLeft));
    // a joker goes on the right of a run without one, but never past the Ace
    assert_eq!(can_shed(&Card::Joker, &run), None);
    let low = vec![
        sc(Suit::Hearts, Value::Ten),
        sc(Suit::Hearts, Value::Jack),
        sc(Suit::Hearts, Value::Queen),
        sc(Suit::Hearts, Value::King),
    ];
    assert_eq!(can_shed(&Card::Joker, &low), Some(ShedPosition::ExtendRight));
    let with_joker = vec![
        sc(Suit::Hearts, Value::Three),
        Card::Joker,
        sc(Suit::Hearts, Value::Five),
        sc(Suit::Hearts, Value::Six),
    ];
    assert_eq!(can_shed(&Card::Joker, &with_joker), None);
    assert_eq!(can_shed(&sc(Suit::Hearts, Value::Seven), &with_joker), Some(ShedPosition::ExtendRight));
    assert_eq!(can_shed(&sc(Suit::Hearts, Value::Two), &with_joker), Some(ShedPosition::ExtendLeft));
    // a joker on a trio without one
    let trio = vec![
        sc(Suit::Hearts, Value::Seven),
        sc(Suit::Clubs, Value::Seven),
        sc(Suit::Spades, Value::Seven),
    ];
    assert_eq!(can_shed(&Card::Joker, &trio), Some(ShedPosition::TrioExtension));
    // not a meld at all
    assert_eq!(can_shed(&sc(Suit::Hearts, Value::Seven), &[]), None);
    assert_eq!(
        can_shed(&sc(Suit::Hearts, Value::Seven), &[sc(Suit::Hearts, Value::Two), sc(Suit::Clubs, Value::Nine)]),
        None
    );
}

#[test]
fn sheddable_cards_lists_every_option() {
    let hand = vec![sc(Suit::Diamonds, Value::Seven), sc(Suit::Clubs, Value::King)];
    let bob = vec![vec![
        sc(Suit::Diamonds, Value::Three),
        sc(Suit::Diamonds, Value::Four),
        sc(Suit::Diamonds, Value::Five),
        sc(Suit::Diamonds, Value::Six),
    ]];
    let carol = vec![vec![
        sc(Suit::Hearts, Value::Seven),
        sc(Suit::Clubs, Value::Seven),
        sc(Suit::Spades, Value::Seven),
    ]];
    let all: Vec<(&str, &Vec<Vec<Card>>)> = vec![("bob", &bob), ("carol", &carol)];
    let actions = find_sheddable_cards(&hand, &all);
    assert_eq!(actions.len(), 2);
    assert_eq!(actions[0].hand_index, 0);
    assert_eq!(actions[0].target_player_id, "bob");
    assert_eq!(actions[0].position, ShedPosition::ExtendRight);
    assert_eq!(actions[1].target_player_id, "carol");
    assert_eq!(actions[1].target_combo_idx, 0);
    assert_eq!(actions[1].position, ShedPosition::TrioExtension);
}

#[test]
fn remaining_hand_score() {
    let hand = vec![
        sc(Suit::Hearts, Value::Five),
        sc(Suit::Clubs, Value::Five),
        sc(Suit::Hearts, Value::Six),
        Card::Joker,
        sc(Suit::Spades, Value::Ace),
    ];
    // nothing used: 5 + 5 + 6 + 50 + 20 points; pairs 5h-5c (rank), 5h-6h (suit)
    let s = score_remaining_hand(&hand, 0);
    assert_eq!(s.remaining_points, 86);
    assert_eq!(s.neg_partial_melds, -2);
    // positions 0 and 3 used
    let s = score_remaining_hand(&hand, 0b1001);
    assert_eq!(s.remaining_points, 31);
    assert_eq!(s.neg_partial_melds, 0);
}

#[test]
fn meld_candidate_mask_and_overlap() {
    let a = MeldCandidate::new(MeldType::Trio, vec![0, 2, 5]);
    assert_eq!(a.mask, 0b100101);
    let b = MeldCandidate::new(MeldType::Escala, vec![1, 3, 4, 6]);
    let c = MeldCandidate::new(MeldType::Trio, vec![5, 7, 8]);
    assert!(!a.overlaps(&b));
    assert!(a.overlaps(&c));
}

#[test]
fn bajada_minimizing_leaves_fewest_points() {
    // Trios of Fives, Aces and Twos: the best two trios keep the Aces out
    // of the hand.
    let hand = vec![
        sc(Suit::Hearts, Value::Five),
        sc(Suit::Clubs, Value::Five),
        sc(Suit::Spades, Value::Five),
        sc(Suit::Hearts, Value::Ace),
        sc(Suit::Clubs, Value::Ace),
        sc(Suit::Spades, Value::Ace),
        sc(Suit::Hearts, Value::Two),
        sc(Suit::Diamonds, Value::Two),
        sc(Suit::Clubs, Value::Two),
    ];
    let melds = find_best_bajada(&hand, 2, 0, true).unwrap();
    let used: HashSet<usize> = melds.iter().flat_map(|m| m.card_indices.iter().cloned()).collect();
    assert!(used.contains(&3) && used.contains(&4) && used.contains(&5));
    assert!(used.contains(&0) && used.contains(&1) && used.contains(&2));
}

#[test]
fn escala_candidates_with_joker_insert_it_in_the_gap() {
    let hand = vec![
        sc(Suit::Hearts, Value::Three),
        sc(Suit::Hearts, Value::Four),
        Card::Joker,
        sc(Suit::Hearts, Value::Six),
    ];
    let candidates = find_all_escala_candidates(&hand);
    assert!(candidates.iter().any(|c| c.card_indices == vec![0, 1, 2, 3]));
}

#[test]
fn escala_candidates_with_duplicates_and_bounds() {
    // 4-5-6-7 of Clubs with a second Five and a joker
    let hand = vec![
        sc(Suit::Clubs, Value::Four),
        sc(Suit::Clubs, Value::Five),
        sc(Suit::Clubs, Value::Five),
        sc(Suit::Clubs, Value::Six),
        sc(Suit::Clubs, Value::Seven),
        Card::Joker,
    ];
    let candidates = find_all_escala_candidates(&hand);
    assert!(candidates.iter().any(|c| c.card_indices == vec![0, 1, 3, 4]));
    // the hand holds a Five: no joker stands in for it
    assert!(!candidates.iter().any(|c| c.card_indices == vec![0, 5, 3, 4]));
    assert!(candidates.iter().all(|c| !c.card_indices.contains(&5)));
    for c in &candidates {
        assert!(c.card_indices.len() >= 4 && c.card_indices.len() <= 13);
        let cards: Vec<Card> = c.card_indices.iter().map(|&i| hand[i]).collect();
        assert!(is_valid_escala(&cards));
    }
}

#[test]
fn escala_candidates_joker_only_in_gaps() {
    // 3 J 5 6 7 of Hearts: the joker fills the Four, also first in a tail
    let hand = vec![
        sc(Suit::Hearts, Value::Three),
        Card::Joker,
        sc(Suit::Hearts, Value::Five),
        sc(Suit::Hearts, Value::Six),
        sc(Suit::Hearts, Value::Seven),
    ];
    let candidates = find_all_escala_candidates(&hand);
    assert!(candidates.iter().any(|c| c.card_indices == vec![0, 1, 2, 3, 4]));
    assert!(candidates.iter().any(|c| c.card_indices == vec![1, 2, 3, 4]));
    // 3 4 5 6 and a joker: no rank is missing, so no candidate uses the joker
    let hand = vec![
        sc(Suit::Hearts, Value::Three),
        sc(Suit::Hearts, Value::Four),
        sc(Suit::Hearts, Value::Five),
        sc(Suit::Hearts, Value::Six),
        Card::Joker,
    ];
    let candidates = find_all_escala_candidates(&hand);
    assert!(candidates.iter().any(|c| c.card_indices == vec![0, 1, 2, 3]));
    assert!(candidates.iter().all(|c| !c.card_indices.contains(&4)));
}
