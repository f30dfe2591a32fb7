use vstd::prelude::*;

use crate::bot::{BotDifficulty, MAX_SEATS};
use crate::card::Card;
use crate::events::{ClientMessage, PlayerScore, SanitizedPlayerState, ServerMessage};
use crate::game::{
    discard_post, draw_from_deck_post, draw_from_discard_post, drop_hand_post, mark_player_ready_post,
    reorder_hand_post, shed_card_post, cards_conserved, has_id, melds_valid, points_monotone, requirements, round_name, seat_of,
    GameState, RoundEndResult,
};
use crate::ids::{contains, is_bot_id, is_prefix, occurs_in, same_id, BOT_PREFIX};

verus! {

/// An event in a room's inbox.
#[derive(Debug, Clone)]
pub enum RoomInput {
    /// A player's connection joined the room.
    PlayerJoined(String),
    /// A player's connection left the room.
    PlayerLeft(String),
    /// A player (or a bot seat) asks for an action.
    PlayerAction(String, ClientMessage),
}

/// A message the room sends to one connected player.
#[derive(Debug, Clone)]
pub struct Outgoing {
    pub to: String,
    pub message: ServerMessage,
}

/// A bot seat whose decision is due.
#[derive(Debug, Clone)]
pub struct BotRequest {
    pub player_id: String,
    pub difficulty: BotDifficulty,
}

/// The decisions of one room: it owns the game state, applies actions in
/// arrival order and says what to send to whom and when a bot must play.
/// Sending, timers and channels are left to the caller.
pub struct RoomCore {
    id: String,
    game: GameState,
    players: Vec<String>,
    connected: Vec<String>,
    bot_action_pending: bool,
}

/// Difficulty of a bot seat, read from its id.
pub open spec fn difficulty_of(id: Seq<char>) -> BotDifficulty {
    if occurs_in("hard"@, id) {
        BotDifficulty::Hard
    } else if occurs_in("medium"@, id) {
        BotDifficulty::Medium
    } else {
        BotDifficulty::Easy
    }
}

fn difficulty_from_id(id: &str) -> (r: BotDifficulty)
    ensures
        r == difficulty_of(id@),
{
    if contains(id, "hard") {
        BotDifficulty::Hard
    } else if contains(id, "medium") {
        BotDifficulty::Medium
    } else {
        BotDifficulty::Easy
    }
}

/// A copy of the string sequence `v`.
fn copy_ids(v: &Vec<String>) -> (r: Vec<String>)
    ensures
        r@.len() == v@.len(),
        forall|i: int| 0 <= i < v@.len() ==> (#[trigger] r@[i])@ == v@[i]@,
{
    let mut r: Vec<String> = Vec::new();
    let mut i: usize = 0;
    while i < v.len()
        invariant
            i <= v@.len(),
            r@.len() == i,
            forall|j: int| 0 <= j < i ==> (#[trigger] r@[j])@ == v@[j]@,
        decreases v@.len() - i,
    {
        r.push(v[i].clone());
        i = i + 1;
    }
    r
}

/// The message that tells `viewer` the state of `g`: their own hand, every
/// seat with hands hidden, and the round, turn and discard-pile top.
pub open spec fn state_message_ok(g: GameState, viewer: Seq<char>, m: ServerMessage) -> bool {
    match m {
        ServerMessage::GameStateUpdate {
            my_hand,
            players,
            current_round_index,
            current_round_rules,
            current_turn_index,
            discard_pile_top,
            is_game_over,
            required_trios,
            required_escalas,
        } => {
            &&& my_hand@ == if has_id(g.players@, viewer) {
                g.players@[seat_of(g.players@, viewer)].hand@
            } else {
                Seq::<Card>::empty()
            }
            &&& players@.len() == g.players@.len()
            &&& forall|i: int| 0 <= i < g.players@.len() ==> {
                let s = #[trigger] players@[i];
                let p = g.players@[i];
                &&& s.id == p.id
                &&& s.hand_count == p.hand@.len()
                &&& s.points == p.points
                &&& s.has_dropped_hand == p.has_dropped_hand
                &&& s.dropped_combinations@.len() == p.dropped_combinations@.len()
                &&& forall|k: int| 0 <= k < p.dropped_combinations@.len() ==> (#[trigger] s.dropped_combinations@[k])@
                    == p.dropped_combinations@[k]@
                &&& s.turns_played == p.turns_played
                &&& s.has_drawn_this_turn == p.has_drawn_this_turn
                &&& s.dropped_hand_this_turn == p.dropped_hand_this_turn
            }
            &&& current_round_index == g.round_index
            &&& current_round_rules@ == round_name(g.current_round)@
            &&& current_turn_index == g.current_turn
            &&& discard_pile_top == if g.discard_pile@.len() > 0 {
                Some(g.discard_pile@.last())
            } else {
                None
            }
            &&& is_game_over == g.is_game_over
            &&& (required_trios as int, required_escalas as int) == requirements(g.current_round)
        },
        _ => false,
    }
}

/// The message announcing the round that `res` reports.
pub open spec fn round_message_ok(res: RoundEndResult, m: ServerMessage) -> bool {
    match m {
        ServerMessage::RoundEnded {
            round_index,
            round_name,
            winner_id,
            player_scores,
            next_round_index,
            next_round_name,
            is_game_over,
        } => {
            &&& round_index == res.finished_round_index
            &&& round_name@ == res.finished_round_name@
            &&& winner_id@ == res.winner_id@
            &&& player_scores@.len() == res.player_scores@.len()
            &&& forall|i: int| 0 <= i < res.player_scores@.len() ==> {
                let s = #[trigger] player_scores@[i];
                &&& s.id@ == res.player_scores@[i].0@
                &&& s.round_points == res.player_scores@[i].1
                &&& s.total_points == res.player_scores@[i].2
            }
            &&& next_round_index == res.next_round_index
            &&& next_round_name@ == res.next_round_name@
            &&& is_game_over == res.is_game_over
        },
        _ => false,
    }
}

/// A copy of `h`.
fn copy_hand(h: &Vec<Card>) -> (r: Vec<Card>)
    ensures
        r@ == h@,
{
    let mut r: Vec<Card> = Vec::new();
    let mut i: usize = 0;
    while i < h.len()
        invariant
            i <= h@.len(),
            r@ == h@.subrange(0, i as int),
        decreases h@.len() - i,
    {
        r.push(h[i]);
        proof {
            assert(r@ =~= h@.subrange(0, i as int + 1));
        }
        i = i + 1;
    }
    proof {
        assert(r@ =~= h@);
    }
    r
}

/// A copy of the hand of the first seat with id `viewer`; empty if none.
fn hand_of(g: &GameState, viewer: &str) -> (r: Vec<Card>)
    ensures
        r@ == if has_id(g.players@, viewer@) {
            g.players@[seat_of(g.players@, viewer@)].hand@
        } else {
            Seq::<Card>::empty()
        },
{
    let mut i: usize = 0;
    while i < g.players.len()
        invariant
            i <= g.players@.len(),
            forall|j: int| 0 <= j < i ==> (#[trigger] g.players@[j]).id@ != viewer@,
        decreases g.players@.len() - i,
    {
        if same_id(g.players[i].id.as_str(), viewer) {
            proof {
                crate::game::lemma_first_unique(g.players@, viewer@, i as int);
            }
            return copy_hand(&g.players[i].hand);
        }
        i = i + 1;
    }
    Vec::new()
}

/// The `GameStateUpdate` for `viewer`.
pub fn state_message_for(g: &GameState, viewer: &str) -> (r: ServerMessage)
    ensures
        state_message_ok(*g, viewer@, r),
{
    let mut players: Vec<SanitizedPlayerState> = Vec::new();
    let mut i: usize = 0;
    while i < g.players.len()
        invariant
            i <= g.players@.len(),
            players@.len() == i,
            forall|j: int| 0 <= j < i ==> {
                let s = #[trigger] players@[j];
                let p = g.players@[j];
                &&& s.id == p.id
                &&& s.hand_count == p.hand@.len()
                &&& s.points == p.points
                &&& s.has_dropped_hand == p.has_dropped_hand
                &&& s.dropped_combinations@.len() == p.dropped_combinations@.len()
                &&& forall|k: int| 0 <= k < p.dropped_combinations@.len() ==> (#[trigger] s.dropped_combinations@[k])@
                    == p.dropped_combinations@[k]@
                &&& s.turns_played == p.turns_played
                &&& s.has_drawn_this_turn == p.has_drawn_this_turn
                &&& s.dropped_hand_this_turn == p.dropped_hand_this_turn
            },
        decreases g.players@.len() - i,
    {
        players.push(SanitizedPlayerState::from_player_state(&g.players[i]));
        i = i + 1;
    }
    let my_hand = hand_of(g, viewer);
    let discard_pile_top = if g.discard_pile.len() > 0 {
        Some(g.discard_pile[g.discard_pile.len() - 1])
    } else {
        None
    };
    let (required_trios, required_escalas) = g.current_round.get_requirements();
    ServerMessage::GameStateUpdate {
        my_hand,
        players,
        current_round_index: g.round_index,
        current_round_rules: g.current_round.description().to_owned(),
        current_turn_index: g.current_turn,
        discard_pile_top,
        is_game_over: g.is_game_over,
        required_trios,
        required_escalas,
    }
}

/// `o2` is `o1` with, if `err` holds one, an `Error` carrying it to `user`.
pub open spec fn reported(o1: Seq<Outgoing>, o2: Seq<Outgoing>, user: Seq<char>, err: Option<&'static str>) -> bool {
    match err {
        Some(e) => {
            &&& o2.len() == o1.len() + 1
            &&& o2.drop_last() == o1
            &&& o2.last().to@ == user
            &&& o2.last().message matches ServerMessage::Error { message } && message@ == e@
        },
        None => o2 == o1,
    }
}

/// The error of a result, if it is one.
pub open spec fn err_of<T>(r: Result<T, &'static str>) -> Option<&'static str> {
    match r {
        Ok(_) => None,
        Err(e) => Some(e),
    }
}

/// The round result a successful move reports, if any.
pub open spec fn round_of(r: Result<Option<RoundEndResult>, &'static str>) -> Option<RoundEndResult> {
    match r {
        Ok(x) => x,
        Err(_) => None,
    }
}

/// What the action of `user` does when the room applies it: the game moves
/// from `g` to `h` as the matching `GameState` operation says, its error
/// (if any) is sent to `user` alone, and a finished round is reported.
pub open spec fn action_applied(
    g: GameState,
    h: GameState,
    user: Seq<char>,
    action: ClientMessage,
    o1: Seq<Outgoing>,
    o2: Seq<Outgoing>,
    ret: Option<RoundEndResult>,
) -> bool {
    match action {
        ClientMessage::DrawFromDeck => exists|r: Result<(), &'static str>|
            #[trigger] draw_from_deck_post(g, h, r) && reported(o1, o2, user, err_of(r)) && ret is None,
        ClientMessage::DrawFromDiscard => exists|r: Result<(), &'static str>|
            #[trigger] draw_from_discard_post(g, h, r) && reported(o1, o2, user, err_of(r)) && ret is None,
        ClientMessage::Discard { payload } => exists|r: Result<Option<RoundEndResult>, &'static str>|
            #[trigger] discard_post(g, h, payload.card_index, r) && reported(o1, o2, user, err_of(r))
                && ret == round_of(r),
        ClientMessage::DropHand { payload } => exists|r: Result<(), &'static str>|
            #[trigger] drop_hand_post(g, h, user, payload.combinations@, r) && reported(o1, o2, user, err_of(r))
                && ret is None,
        ClientMessage::ShedCard { payload } => exists|r: Result<Option<RoundEndResult>, &'static str>|
            #[trigger] shed_card_post(
                g,
                h,
                user,
                payload.hand_card_index,
                payload.target_player_id@,
                payload.target_combo_idx,
                r,
            ) && reported(o1, o2, user, err_of(r)) && ret == round_of(r),
        ClientMessage::ReorderHand { payload } => exists|r: Result<(), &'static str>|
            #[trigger] reorder_hand_post(g, h, user, payload.hand@, r) && reported(o1, o2, user, err_of(r))
                && ret is None,
        ClientMessage::MarkReady => exists|r: Result<(), &'static str>|
            #[trigger] mark_player_ready_post(g, h, user, r) && reported(o1, o2, user, err_of(r)) && ret is None,
    }
}

/// The messages `sends` that answer the action `a` of `u`: first the
/// action's own outcome (its error, if any, to `u` alone, the game moving
/// from `g` to `h` as the operation says, a move out of turn refused),
/// then, when it ended the round, `RoundEnded` to every connected seat.
pub open spec fn action_sends(
    g: GameState,
    h: GameState,
    seats: Seq<String>,
    conn: Seq<String>,
    u: Seq<char>,
    a: ClientMessage,
    sends: Seq<Outgoing>,
    n: int,
    ret: Option<RoundEndResult>,
) -> bool {
    let turn = g.current_turn < seats.len() && seats[g.current_turn as int]@ == u;
    let errs = sends.subrange(0, n);
    &&& 0 <= n <= sends.len()
    &&& (!is_gameplay(a) || turn) ==> action_applied(g, h, u, a, Seq::empty(), errs, ret)
    &&& (is_gameplay(a) && !turn) ==> h == g && ret is None && reported(Seq::empty(), errs, u, Some("Not your turn"))
    &&& ret matches Some(res) ==> {
        &&& n + conn.len() <= sends.len()
        &&& forall|j: int|
            0 <= j < conn.len() ==> (#[trigger] sends[n + j]).to@ == conn[j]@ && round_message_ok(res, sends[n + j].message)
    }
}

/// What the room does after one input: messages to send, in order, and a
/// bot decision to schedule, if any.
pub struct RoomStep {
    pub sends: Vec<Outgoing>,
    pub bot: Option<BotRequest>,
}

/// The action changes the game (as opposed to getting ready between rounds).
pub open spec fn is_gameplay(a: ClientMessage) -> bool {
    !(a is MarkReady)
}

/// No `RoundEnded` comes after a `GameStateUpdate` in `sends`.
pub open spec fn round_news_first(sends: Seq<Outgoing>) -> bool {
    forall|a: int, b: int|
        0 <= a < b < sends.len() && (#[trigger] sends[a]).message is GameStateUpdate
            ==> !((#[trigger] sends[b]).message is RoundEnded)
}

/// `sends` ends with the state of `g` for each of `viewers`, in order.
pub open spec fn ends_with_states(sends: Seq<Outgoing>, g: GameState, viewers: Seq<String>) -> bool {
    let base = sends.len() - viewers.len();
    &&& sends.len() >= viewers.len()
    &&& forall|i: int|
        0 <= i < viewers.len() ==> (#[trigger] sends[base + i]).to@ == viewers[i]@ && state_message_ok(
            g,
            viewers[i]@,
            sends[base + i].message,
        )
}

fn error_to(user: &str, message: &str) -> (r: Outgoing)
    ensures
        r.to@ == user@,
        r.message matches ServerMessage::Error { message: m } && m@ == message@,
{
    Outgoing { to: user.to_owned(), message: ServerMessage::Error { message: message.to_owned() } }
}

/// Sends `message` to `user` as an `Error`.
fn report_error(out: &mut Vec<Outgoing>, user: &str, message: &'static str)
    ensures
        reported(old(out)@, final(out)@, user@, Some(message)),
        final(out)@.last().message is Error,
{
    let ghost o1 = out@;
    out.push(error_to(user, message));
    proof {
        assert(out@.drop_last() =~= o1);
    }
}

/// The `RoundEnded` message for `res`.
pub fn round_ended_message(res: &RoundEndResult) -> (r: ServerMessage)
    ensures
        round_message_ok(*res, r),
{
    let mut player_scores: Vec<PlayerScore> = Vec::new();
    let mut i: usize = 0;
    while i < res.player_scores.len()
        invariant
            i <= res.player_scores@.len(),
            player_scores@.len() == i,
            forall|j: int| 0 <= j < i ==> {
                let s = #[trigger] player_scores@[j];
                &&& s.id@ == res.player_scores@[j].0@
                &&& s.round_points == res.player_scores@[j].1
                &&& s.total_points == res.player_scores@[j].2
            },
        decreases res.player_scores@.len() - i,
    {
        let score = &res.player_scores[i];
        player_scores.push(PlayerScore { id: score.0.clone(), round_points: score.1, total_points: score.2 });
        i = i + 1;
    }
    ServerMessage::RoundEnded {
        round_index: res.finished_round_index,
        round_name: res.finished_round_name.clone(),
        winner_id: res.winner_id.clone(),
        player_scores,
        next_round_index: res.next_round_index,
        next_round_name: res.next_round_name.clone(),
        is_game_over: res.is_game_over,
    }
}

impl RoomCore {
    /// The game state this room owns.
    pub closed spec fn game_state(&self) -> GameState {
        self.game
    }

    /// Ids of the players whose connections are in the room, in joining order.
    pub closed spec fn connected_ids(&self) -> Seq<String> {
        self.connected@
    }

    /// Seat ids, in seat order.
    pub closed spec fn seat_ids(&self) -> Seq<String> {
        self.players@
    }

    /// A bot decision has been scheduled and not yet received.
    pub closed spec fn bot_pending(&self) -> bool {
        self.bot_action_pending
    }

    /// The room's invariant: a well-formed game of at most four seats,
    /// whose seats are the room's players.
    pub closed spec fn wf(&self) -> bool {
        &&& self.game.wf()
        &&& self.game.players@.len() <= MAX_SEATS
        &&& self.players@.len() == self.game.players@.len()
        &&& forall|i: int| 0 <= i < self.players@.len() ==> (#[trigger] self.players@[i])@ == self.game.players@[i].id@
    }

    /// A room for the given seats, with the first round dealt.
    pub fn new(id: String, players: Vec<String>) -> (r: RoomCore)
        requires
            players@.len() <= MAX_SEATS,
        ensures
            r.wf(),
            r.seat_ids().len() == players@.len(),
            r.connected_ids().len() == 0,
            !r.bot_pending(),
            r.game_state().round_index == 0,
            r.game_state().players@.len() == players@.len(),
            forall|i: int| 0 <= i < players@.len() ==> (#[trigger] r.game_state().players@[i]).hand@.len() == 12,
            r.game_state().discard_pile@.len() == 1,
            r.game_state().deck.cards@.len() == 108 - 12 * players@.len() - 1,
            r.game_state().current_turn == 0,
            !r.game_state().is_waiting_for_next_round,
            !r.game_state().is_game_over,
            cards_conserved(r.game_state()),
            melds_valid(r.game_state()),
    {
        let mut game_state = GameState::new(copy_ids(&players));
        game_state.start_round();
        RoomCore { id, game: game_state, players, connected: Vec::new(), bot_action_pending: false }
    }

    /// A room around a game already under way, its seats those of `game`.
    pub fn from_game(id: String, game: GameState) -> (r: RoomCore)
        requires
            game.wf(),
            game.players@.len() <= MAX_SEATS,
        ensures
            r.wf(),
            r.game_state() == game,
            r.connected_ids().len() == 0,
            !r.bot_pending(),
    {
        let mut players: Vec<String> = Vec::new();
        let mut i: usize = 0;
        while i < game.players.len()
            invariant
                i <= game.players@.len(),
                players@.len() == i,
                forall|j: int| 0 <= j < i ==> (#[trigger] players@[j])@ == game.players@[j].id@,
            decreases game.players@.len() - i,
        {
            players.push(game.players[i].id.clone());
            i = i + 1;
        }
        RoomCore { id, game, players, connected: Vec::new(), bot_action_pending: false }
    }

    /// The game state, for snapshots.
    pub fn game(&self) -> (r: &GameState)
        ensures
            *r == self.game_state(),
    {
        &self.game
    }

    /// The room's id.
    pub fn id(&self) -> (r: &String) {
        &self.id
    }

    /// The state messages for every connected player, in order.
    fn push_states(&self, out: &mut Vec<Outgoing>)
        ensures
            final(out)@.len() == old(out)@.len() + self.connected@.len(),
            forall|i: int| 0 <= i < old(out)@.len() ==> #[trigger] final(out)@[i] == old(out)@[i],
            ends_with_states(final(out)@, self.game, self.connected@),
    {
        let ghost start = out@.len();
        let mut i: usize = 0;
        while i < self.connected.len()
            invariant
                i <= self.connected@.len(),
                out@.len() == start + i,
                start == old(out)@.len(),
                forall|j: int| 0 <= j < start ==> #[trigger] out@[j] == old(out)@[j],
                forall|j: int|
                    0 <= j < i ==> (#[trigger] out@[start + j]).to@ == self.connected@[j]@ && state_message_ok(
                        self.game,
                        self.connected@[j]@,
                        out@[start + j].message,
                    ),
            decreases self.connected@.len() - i,
        {
            let viewer = self.connected[i].as_str();
            let message = state_message_for(&self.game, viewer);
            out.push(Outgoing { to: self.connected[i].clone(), message });
            i = i + 1;
        }
        proof {
            let s = out@;
            let base = s.len() - self.connected@.len();
            assert forall|i: int| 0 <= i < self.connected@.len() implies (#[trigger] s[base + i]).to@ == self.connected@[i]@ && state_message_ok(
                self.game,
                self.connected@[i]@,
                s[base + i].message,
            ) by {
                assert(base + i == start + i);
            }
        }
    }

    /// Applies the action of `user_id`: any seat may get ready between
    /// rounds; every other action needs it to be that seat's turn. Errors
    /// go to `user_id` alone.
    fn handle_action(&mut self, user_id: &str, action: ClientMessage, out: &mut Vec<Outgoing>) -> (r: Option<RoundEndResult>)
        requires
            old(self).wf(),
        ensures
            final(self).wf(),
            final(self).connected == old(self).connected,
            final(self).players == old(self).players,
            final(self).bot_action_pending == old(self).bot_action_pending,
            cards_conserved(old(self).game) ==> cards_conserved(final(self).game),
            melds_valid(old(self).game) ==> melds_valid(final(self).game),
            points_monotone(old(self).game, final(self).game),
            forall|i: int| 0 <= i < old(out)@.len() ==> #[trigger] final(out)@[i] == old(out)@[i],
            forall|i: int| old(out)@.len() <= i < final(out)@.len() ==> (#[trigger] final(out)@[i]).message is Error,
            is_gameplay(action) && !(old(self).game.current_turn < old(self).players@.len()
                && old(self).players@[old(self).game.current_turn as int]@ == user_id@) ==> {
                &&& final(self).game == old(self).game
                &&& r is None
                &&& reported(old(out)@, final(out)@, user_id@, Some("Not your turn"))
            },
            !is_gameplay(action) || (old(self).game.current_turn < old(self).players@.len()
                && old(self).players@[old(self).game.current_turn as int]@ == user_id@) ==> action_applied(
                old(self).game,
                final(self).game,
                user_id@,
                action,
                old(out)@,
                final(out)@,
                r,
            ),
    {
        let ghost o1 = out@;
        let ghost g0 = self.game;
        if let ClientMessage::MarkReady = action {
            let res = self.game.mark_player_ready(user_id);
            if let Err(e) = res {
                report_error(out, user_id, e);
            }
            proof {
                assert(mark_player_ready_post(g0, self.game, user_id@, res));
                assert(reported(o1, out@, user_id@, err_of(res)));
            }
            return None;
        }
        let turn = self.game.current_turn;
        if turn >= self.players.len() || !same_id(self.players[turn].as_str(), user_id) {
            report_error(out, user_id, "Not your turn");
            return None;
        }
        match action {
            ClientMessage::DrawFromDeck => {
                let res = self.game.draw_from_deck();
                if let Err(e) = res {
                    report_error(out, user_id, e);
                }
                proof {
                    assert(draw_from_deck_post(g0, self.game, res));
                    assert(reported(o1, out@, user_id@, err_of(res)));
                }
                None
            },
            ClientMessage::DrawFromDiscard => {
                let res = self.game.draw_from_discard();
                if let Err(e) = res {
                    report_error(out, user_id, e);
                }
                proof {
                    assert(draw_from_discard_post(g0, self.game, res));
                    assert(reported(o1, out@, user_id@, err_of(res)));
                }
                None
            },
            ClientMessage::Discard { payload } => {
                let res = self.game.discard(payload.card_index);
                let ghost gr = res;
                let ret = match res {
                    Ok(result) => result,
                    Err(e) => {
                        report_error(out, user_id, e);
                        None
                    },
                };
                proof {
                    assert(discard_post(g0, self.game, payload.card_index, gr));
                    assert(reported(o1, out@, user_id@, err_of(gr)));
                    assert(ret == round_of(gr));
                }
                ret
            },
            ClientMessage::DropHand { payload } => {
                let ghost cs = payload.combinations@;
                let res = self.game.drop_hand(user_id, payload.combinations);
                if let Err(e) = res {
                    report_error(out, user_id, e);
                }
                proof {
                    assert(drop_hand_post(g0, self.game, user_id@, cs, res));
                    assert(reported(o1, out@, user_id@, err_of(res)));
                }
                None
            },
            ClientMessage::ShedCard { payload } => {
                let res = self.game.shed_card(
                    user_id,
                    payload.hand_card_index,
                    payload.target_player_id.as_str(),
                    payload.target_combo_idx,
                );
                let ghost gr = res;
                let ret = match res {
                    Ok(result) => result,
                    Err(e) => {
                        report_error(out, user_id, e);
                        None
                    },
                };
                proof {
                    assert(shed_card_post(
                        g0,
                        self.game,
                        user_id@,
                        payload.hand_card_index,
                        payload.target_player_id@,
                        payload.target_combo_idx,
                        gr,
                    ));
                    assert(reported(o1, out@, user_id@, err_of(gr)));
                    assert(ret == round_of(gr));
                }
                ret
            },
            ClientMessage::ReorderHand { payload } => {
                let ghost nh = payload.hand@;
                let res = self.game.reorder_hand(user_id, payload.hand);
                if let Err(e) = res {
                    report_error(out, user_id, e);
                }
                proof {
                    assert(reorder_hand_post(g0, self.game, user_id@, nh, res));
                    assert(reported(o1, out@, user_id@, err_of(res)));
                }
                None
            },
            ClientMessage::MarkReady => None,
        }
    }

    /// Whether a bot must be asked to play: the seat to play is a bot and
    /// no decision of it is pending yet.
    fn check_bot_turn(&mut self) -> (r: Option<BotRequest>)
        ensures
            final(self).game == old(self).game,
            final(self).players == old(self).players,
            final(self).connected == old(self).connected,
            r matches Some(req) ==> {
                let t = old(self).game.current_turn as int;
                &&& !old(self).bot_action_pending
                &&& final(self).bot_action_pending
                &&& 0 <= t < old(self).players@.len()
                &&& req.player_id@ == old(self).players@[t]@
                &&& is_prefix(BOT_PREFIX@, req.player_id@)
                &&& req.difficulty == difficulty_of(req.player_id@)
            },
            r is None ==> final(self).bot_action_pending == old(self).bot_action_pending,
            !old(self).bot_action_pending && old(self).game.current_turn < old(self).players@.len()
                && is_prefix(BOT_PREFIX@, old(self).players@[old(self).game.current_turn as int]@) ==> r is Some,
    {
        if self.bot_action_pending {
            return None;
        }
        let turn = self.game.current_turn;
        if turn >= self.players.len() {
            return None;
        }
        if !is_bot_id(self.players[turn].as_str()) {
            return None;
        }
        self.bot_action_pending = true;
        let difficulty = difficulty_from_id(self.players[turn].as_str());
        Some(BotRequest { player_id: self.players[turn].clone(), difficulty })
    }

    /// Applies the action of `user_id` and says what to send: its outcome,
    /// the round's end if it came, then the state to everyone connected.
    fn on_action(&mut self, user_id: String, action: ClientMessage) -> (sends: Vec<Outgoing>)
        requires
            old(self).wf(),
        ensures
            final(self).wf(),
            is_prefix(BOT_PREFIX@, user_id@) ==> !final(self).bot_action_pending,
            final(self).players == old(self).players,
            final(self).connected == old(self).connected,
            exists|n: int, ret: Option<RoundEndResult>|
                #[trigger] action_sends(
                    old(self).game,
                    final(self).game,
                    old(self).players@,
                    final(self).connected@,
                    user_id@,
                    action,
                    sends@,
                    n,
                    ret,
                ),
            ends_with_states(sends@, final(self).game, final(self).connected@),
            round_news_first(sends@),
            is_gameplay(action) && !(old(self).game.current_turn < old(self).players@.len()
                && old(self).players@[old(self).game.current_turn as int]@ == user_id@)
                ==> final(self).game == old(self).game,
            cards_conserved(old(self).game) ==> cards_conserved(final(self).game),
            melds_valid(old(self).game) ==> melds_valid(final(self).game),
            points_monotone(old(self).game, final(self).game),
    {
        let mut sends: Vec<Outgoing> = Vec::new();
        if is_bot_id(user_id.as_str()) {
            self.bot_action_pending = false;
        }
        let ghost g0 = self.game;
        let ghost a0 = action;
        proof {
            assert(sends@ =~= Seq::<Outgoing>::empty());
        }
        let round_result = self.handle_action(user_id.as_str(), action, &mut sends);
        let ghost errors = sends@.len();
        let ghost ret = round_result;
        let ghost err_sends = sends@;
        if let Some(result) = round_result {
            let mut i: usize = 0;
            while i < self.connected.len()
                invariant
                    i <= self.connected@.len(),
                    errors <= sends@.len(),
                    sends@.len() == errors + i,
                    ret == Some(result),
                    forall|j: int| 0 <= j < errors ==> #[trigger] sends@[j] == err_sends[j],
                    forall|j: int| 0 <= j < sends@.len() ==> !((#[trigger] sends@[j]).message is GameStateUpdate),
                    forall|j: int|
                        0 <= j < i ==> (#[trigger] sends@[errors + j]).to@ == self.connected@[j]@
                            && round_message_ok(result, sends@[errors + j].message),
                decreases self.connected@.len() - i,
            {
                let message = round_ended_message(&result);
                sends.push(Outgoing { to: self.connected[i].clone(), message });
                i = i + 1;
            }
        }
        let ghost before_states = sends@;
        self.push_states(&mut sends);
        proof {
            assert forall|a: int, b: int|
                0 <= a < b < sends@.len() && (#[trigger] sends@[a]).message is GameStateUpdate
                    implies !((#[trigger] sends@[b]).message is RoundEnded) by {
                let base = before_states.len();
                if a < base {
                    assert(sends@[a] == before_states[a]);
                }
                assert(b >= base);
                assert(state_message_ok(self.game, self.connected@[b - base]@, sends@[base + (b - base)].message));
            }
            assert(sends@.subrange(0, errors as int) =~= err_sends);
            if ret is Some {
                let res = ret->Some_0;
                assert forall|j: int| 0 <= j < self.connected@.len() implies (#[trigger] sends@[errors + j]).to@
                    == self.connected@[j]@ && round_message_ok(res, sends@[errors + j].message) by {
                    assert(sends@[errors + j] == before_states[errors + j]);
                }
            }
            assert(action_sends(g0, self.game, self.players@, self.connected@, user_id@, a0, sends@, errors as int, ret));
        }
        sends
    }

    /// Marks `user_id` connected and sends everyone the state.
    fn on_join(&mut self, user_id: String) -> (sends: Vec<Outgoing>)
        requires
            old(self).wf(),
        ensures
            final(self).wf(),
            final(self).game == old(self).game,
            final(self).players == old(self).players,
            final(self).bot_action_pending == old(self).bot_action_pending,
            exists|i: int| 0 <= i < final(self).connected@.len() && (#[trigger] final(self).connected@[i])@ == user_id@,
            ends_with_states(sends@, final(self).game, final(self).connected@),
            round_news_first(sends@),
    {
        let mut sends: Vec<Outgoing> = Vec::new();
        let mut k: usize = 0;
        let mut found: Option<usize> = None;
        while k < self.connected.len()
            invariant
                k <= self.connected@.len(),
                found matches Some(i) ==> i < self.connected@.len() && self.connected@[i as int]@ == user_id@,
            decreases self.connected@.len() - k,
        {
            if same_id(self.connected[k].as_str(), user_id.as_str()) {
                found = Some(k);
            }
            k = k + 1;
        }
        let at = match found {
            Some(i) => i,
            None => {
                let n = self.connected.len();
                self.connected.push(user_id);
                n
            },
        };
        proof {
            assert(self.connected@[at as int]@ == user_id@);
        }
        self.push_states(&mut sends);
        proof {
            assert forall|a: int, b: int|
                0 <= a < b < sends@.len() && (#[trigger] sends@[a]).message is GameStateUpdate
                    implies !((#[trigger] sends@[b]).message is RoundEnded) by {
                let base = sends@.len() - self.connected@.len();
                assert(state_message_ok(self.game, self.connected@[b - base]@, sends@[base + (b - base)].message));
            }
        }
        sends
    }

    /// A bot decision to request now, if a bot seat is to play and none
    /// is pending (for the first seat, before any event arrives).
    pub fn bot_request(&mut self) -> (r: Option<BotRequest>)
        requires
            old(self).wf(),
        ensures
            final(self).wf(),
            final(self).game_state() == old(self).game_state(),
            final(self).seat_ids() == old(self).seat_ids(),
            final(self).connected_ids() == old(self).connected_ids(),
            r matches Some(req) ==> {
                let g = old(self).game_state();
                &&& !old(self).bot_pending()
                &&& final(self).bot_pending()
                &&& 0 <= g.current_turn < old(self).seat_ids().len()
                &&& req.player_id@ == old(self).seat_ids()[g.current_turn as int]@
                &&& is_prefix(BOT_PREFIX@, req.player_id@)
                &&& req.difficulty == difficulty_of(req.player_id@)
            },
            r is None ==> final(self).bot_pending() == old(self).bot_pending(),
    {
        self.check_bot_turn()
    }

    /// Handles one inbox event. A join or a leave updates who is connected
    /// (a join then sends everyone the state). An action is applied; the
    /// round's end, if it came, is announced to everyone, and then everyone
    /// gets the new state. Last, a bot decision is requested if a bot seat
    /// is to play and none is pending.
    pub fn handle(&mut self, input: RoomInput) -> (r: RoomStep)
        requires
            old(self).wf(),
        ensures
            final(self).wf(),
            final(self).seat_ids() == old(self).seat_ids(),
            round_news_first(r.sends@),
            cards_conserved(old(self).game_state()) ==> cards_conserved(final(self).game_state()),
            melds_valid(old(self).game_state()) ==> melds_valid(final(self).game_state()),
            points_monotone(old(self).game_state(), final(self).game_state()),
            input matches RoomInput::PlayerAction(u, a) ==> {
                &&& exists|n: int, ret: Option<RoundEndResult>|
                    #[trigger] action_sends(
                        old(self).game_state(),
                        final(self).game_state(),
                        old(self).seat_ids(),
                        final(self).connected_ids(),
                        u@,
                        a,
                        r.sends@,
                        n,
                        ret,
                    )
                &&& ends_with_states(r.sends@, final(self).game_state(), final(self).connected_ids())
                &&& final(self).connected_ids() == old(self).connected_ids()
                &&& is_gameplay(a) && !(old(self).game_state().current_turn < old(self).seat_ids().len()
                    && old(self).seat_ids()[old(self).game_state().current_turn as int]@ == u@)
                    ==> final(self).game_state() == old(self).game_state()
            },
            input matches RoomInput::PlayerJoined(u) ==> {
                &&& final(self).game_state() == old(self).game_state()
                &&& exists|i: int| 0 <= i < final(self).connected_ids().len() && (#[trigger] final(self).connected_ids()[i])@ == u@
                &&& ends_with_states(r.sends@, final(self).game_state(), final(self).connected_ids())
            },
            input matches RoomInput::PlayerLeft(u) ==> {
                &&& final(self).game_state() == old(self).game_state()
                &&& forall|i: int| 0 <= i < final(self).connected_ids().len() ==> (#[trigger] final(self).connected_ids()[i])@ != u@
            },
            input matches RoomInput::PlayerAction(u, a) ==> (is_prefix(BOT_PREFIX@, u@) ==> (r.bot is Some <==> (
            final(self).game_state().current_turn < final(self).seat_ids().len() && is_prefix(
                BOT_PREFIX@,
                final(self).seat_ids()[final(self).game_state().current_turn as int]@,
            )))),
            r.bot matches Some(req) ==> {
                let g = final(self).game_state();
                &&& 0 <= g.current_turn < final(self).seat_ids().len()
                &&& req.player_id@ == final(self).seat_ids()[g.current_turn as int]@
                &&& is_prefix(BOT_PREFIX@, req.player_id@)
                &&& req.difficulty == difficulty_of(req.player_id@)
            },
    {
        let mut sends: Vec<Outgoing> = Vec::new();
        let ghost inp = input;
        match input {
            RoomInput::PlayerJoined(user_id) => {
                sends = self.on_join(user_id);
            },
            RoomInput::PlayerLeft(user_id) => {
                let mut kept: Vec<String> = Vec::new();
                let mut k: usize = 0;
                while k < self.connected.len()
                    invariant
                        k <= self.connected@.len(),
                        forall|i: int| 0 <= i < kept@.len() ==> (#[trigger] kept@[i])@ != user_id@,
                    decreases self.connected@.len() - k,
                {
                    if !same_id(self.connected[k].as_str(), user_id.as_str()) {
                        kept.push(self.connected[k].clone());
                    }
                    k = k + 1;
                }
                self.connected = kept;
            },
            RoomInput::PlayerAction(user_id, action) => {
                sends = self.on_action(user_id, action);
            },
        }
        let ghost conn = self.connected@;
        let bot = self.check_bot_turn();
        proof {
            assert(self.connected@ == conn);
            if inp is PlayerJoined {
                let u = inp->PlayerJoined_0;
                if exists|i: int| 0 <= i < conn.len() && (#[trigger] conn[i])@ == u@ {
                    let w = choose|i: int| 0 <= i < conn.len() && (#[trigger] conn[i])@ == u@;
                    assert(self.connected_ids()[w]@ == u@);
                }
            }
        }
        RoomStep { sends, bot }
    }
}

} // verus!
