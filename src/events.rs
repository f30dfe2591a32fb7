use vstd::prelude::*;

use crate::card::Card;
use crate::game::PlayerState;

verus! {

/// A message from a client to its room.
#[derive(Debug, Clone)]
pub enum ClientMessage {
    DrawFromDeck,
    DrawFromDiscard,
    Discard { payload: DiscardPayload },
    DropHand { payload: DropHandPayload },
    ShedCard { payload: ShedCardPayload },
    ReorderHand { payload: ReorderHandPayload },
    /// Ready for the next round (while the game waits between rounds).
    MarkReady,
}

#[derive(Debug, Clone)]
pub struct DiscardPayload {
    pub card_index: usize,
}

#[derive(Debug, Clone)]
pub struct DropHandPayload {
    pub combinations: Vec<Vec<Card>>,
}

/// Shed a single card from hand onto an existing table meld; where it goes
/// is decided by `can_shed`.
#[derive(Debug, Clone)]
pub struct ShedCardPayload {
    /// Index into the current player's hand.
    pub hand_card_index: usize,
    /// Id of the player whose bajada is extended.
    pub target_player_id: String,
    /// Index into that player's melds.
    pub target_combo_idx: usize,
}

#[derive(Debug, Clone)]
pub struct ReorderHandPayload {
    pub hand: Vec<Card>,
}

#[derive(Debug, Clone)]
pub struct PlayerScore {
    pub id: String,
    pub round_points: u32,
    pub total_points: u32,
}

/// A message from a room to one client.
#[derive(Debug, Clone)]
pub enum ServerMessage {
    Error { message: String },
    MatchFound { room_id: String, players: Vec<String> },
    GameStateUpdate {
        /// The receiving player's own cards.
        my_hand: Vec<Card>,
        /// Every seat, hands hidden.
        players: Vec<SanitizedPlayerState>,
        current_round_index: usize,
        current_round_rules: String,
        current_turn_index: usize,
        discard_pile_top: Option<Card>,
        is_game_over: bool,
        required_trios: usize,
        required_escalas: usize,
    },
    RoundEnded {
        round_index: usize,
        round_name: String,
        winner_id: String,
        player_scores: Vec<PlayerScore>,
        next_round_index: usize,
        next_round_name: String,
        is_game_over: bool,
    },
}

/// What other players may see of a seat: everything but the hand's cards.
#[derive(Debug, Clone)]
pub struct SanitizedPlayerState {
    pub id: String,
    pub hand_count: usize,
    pub has_dropped_hand: bool,
    pub points: u32,
    pub dropped_combinations: Vec<Vec<Card>>,
    pub turns_played: u32,
    pub has_drawn_this_turn: bool,
    pub dropped_hand_this_turn: bool,
}

/// A copy of every meld of `cs`.
fn copy_melds(cs: &Vec<Vec<Card>>) -> (r: Vec<Vec<Card>>)
    ensures
        r@.len() == cs@.len(),
        forall|k: int| 0 <= k < cs@.len() ==> (#[trigger] r@[k])@ == cs@[k]@,
{
    let mut r: Vec<Vec<Card>> = Vec::new();
    let mut k: usize = 0;
    while k < cs.len()
        invariant
            k <= cs@.len(),
            r@.len() == k,
            forall|j: int| 0 <= j < k ==> (#[trigger] r@[j])@ == cs@[j]@,
        decreases cs@.len() - k,
    {
        let mut m: Vec<Card> = Vec::new();
        let mut i: usize = 0;
        while i < cs[k].len()
            invariant
                k < cs@.len(),
                i <= cs@[k as int]@.len(),
                m@ == cs@[k as int]@.subrange(0, i as int),
            decreases cs@[k as int]@.len() - i,
        {
            m.push(cs[k][i]);
            proof {
                assert(m@ =~= cs@[k as int]@.subrange(0, i as int + 1));
            }
            i = i + 1;
        }
        proof {
            assert(m@ =~= cs@[k as int]@);
        }
        r.push(m);
        k = k + 1;
    }
    r
}

impl SanitizedPlayerState {
    /// The public view of `state`: its hand reduced to a count.
    pub fn from_player_state(state: &PlayerState) -> (r: SanitizedPlayerState)
        ensures
            r.id == state.id,
            r.hand_count == state.hand@.len(),
            r.has_dropped_hand == state.has_dropped_hand,
            r.points == state.points,
            r.dropped_combinations@.len() == state.dropped_combinations@.len(),
            forall|k: int| 0 <= k < state.dropped_combinations@.len() ==> (#[trigger] r.dropped_combinations@[k])@
                == state.dropped_combinations@[k]@,
            r.turns_played == state.turns_played,
            r.has_drawn_this_turn == state.has_drawn_this_turn,
            r.dropped_hand_this_turn == state.dropped_hand_this_turn,
    {
        SanitizedPlayerState {
            id: state.id.clone(),
            hand_count: state.hand.len(),
            has_dropped_hand: state.has_dropped_hand,
            points: state.points,
            dropped_combinations: copy_melds(&state.dropped_combinations),
            turns_played: state.turns_played,
            has_drawn_this_turn: state.has_drawn_this_turn,
            dropped_hand_this_turn: state.dropped_hand_this_turn,
        }
    }
}

} // verus!
