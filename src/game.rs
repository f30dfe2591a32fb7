use vstd::multiset::Multiset;
use vstd::prelude::*;

use crate::card::Card;
use crate::combo_finder::{can_shed, shed_onto, shed_position, ShedPosition};
use crate::deck::{canonical_deck, Deck, DECK_SIZE};
use crate::points::{calculate_hand_points, hand_points, lemma_hand_points_bounds};
use crate::ids::{is_bot_id, is_prefix, same_id, BOT_PREFIX};
use crate::rules::{is_escala, is_trio, is_valid_escala, is_valid_trio};

verus! {

broadcast use vstd::seq_lib::group_to_multiset_ensures;

/// Cards dealt to each player at the start of a round.
pub const HAND_SIZE: usize = 12;

/// Most points one round can add to a total: every card of the deck left
/// in one hand, at 50 points each.
pub const MAX_ROUND_POINTS: u32 = 5400;

/// Most seats at one game.
pub const MAX_PLAYERS: usize = 4;

/// Number of rounds in a game.
pub const ROUND_COUNT: usize = 9;

/// The most recent action taken by any player, broadcast to all clients.
#[derive(Debug, Clone)]
pub struct LastAction {
    pub player_id: String,
    pub action_type: String,
    pub card: Option<Card>,
}

/// The nine round types, in the order they are played.
#[derive(Debug, Clone, Copy, PartialEq, Eq, Structural)]
pub enum RoundType {
    TwoTrios,
    OneTrioOneEscala,
    TwoEscalas,
    ThreeTrios,
    TwoTriosOneEscala,
    OneTrioTwoEscalas,
    ThreeEscalas,
    FourTrios,
    EscalaReal,
}

/// `(trios, escalas)` a round type requires.
pub open spec fn requirements(r: RoundType) -> (int, int) {
    match r {
        RoundType::TwoTrios => (2, 0),
        RoundType::OneTrioOneEscala => (1, 1),
        RoundType::TwoEscalas => (0, 2),
        RoundType::ThreeTrios => (3, 0),
        RoundType::TwoTriosOneEscala => (2, 1),
        RoundType::OneTrioTwoEscalas => (1, 2),
        RoundType::ThreeEscalas => (0, 3),
        RoundType::FourTrios => (4, 0),
        RoundType::EscalaReal => (0, 1),
    }
}

/// Rule text of a round type.
pub open spec fn round_name(r: RoundType) -> &'static str {
    match r {
        RoundType::TwoTrios => "2 Tríos (6 cards)",
        RoundType::OneTrioOneEscala => "1 Trío, 1 Escala (7 cards)",
        RoundType::TwoEscalas => "2 Escalas (8 cards)",
        RoundType::ThreeTrios => "3 Tríos (9 cards)",
        RoundType::TwoTriosOneEscala => "2 Tríos, 1 Escala (10 cards)",
        RoundType::OneTrioTwoEscalas => "1 Trío, 2 Escalas (11 cards)",
        RoundType::ThreeEscalas => "3 Escalas (12 cards)",
        RoundType::FourTrios => "4 Tríos (12 cards)",
        RoundType::EscalaReal => "Escala Real (13 cards, same suit)",
    }
}

/// The round types in playing order.
pub open spec fn round_schedule() -> Seq<RoundType> {
    seq![
        RoundType::TwoTrios,
        RoundType::OneTrioOneEscala,
        RoundType::TwoEscalas,
        RoundType::ThreeTrios,
        RoundType::TwoTriosOneEscala,
        RoundType::OneTrioTwoEscalas,
        RoundType::ThreeEscalas,
        RoundType::FourTrios,
        RoundType::EscalaReal,
    ]
}

impl RoundType {
    /// All round types in playing order.
    pub fn all_rounds() -> (r: Vec<RoundType>)
        ensures
            r@ == round_schedule(),
            r@.len() == ROUND_COUNT,
            r@.map_values(|t: RoundType| requirements(t)) == seq![
                (2int, 0int),
                (1, 1),
                (0, 2),
                (3, 0),
                (2, 1),
                (1, 2),
                (0, 3),
                (4, 0),
                (0, 1),
            ],
    {
        let r = vec![
            RoundType::TwoTrios,
            RoundType::OneTrioOneEscala,
            RoundType::TwoEscalas,
            RoundType::ThreeTrios,
            RoundType::TwoTriosOneEscala,
            RoundType::OneTrioTwoEscalas,
            RoundType::ThreeEscalas,
            RoundType::FourTrios,
            RoundType::EscalaReal,
        ];
        proof {
            assert(r@ =~= round_schedule());
            assert(r@.map_values(|t: RoundType| requirements(t)) =~= seq![
                (2int, 0int),
                (1, 1),
                (0, 2),
                (3, 0),
                (2, 1),
                (1, 2),
                (0, 3),
                (4, 0),
                (0, 1),
            ]);
        }
        r
    }

    /// Human-readable rule text of the round.
    pub fn description(&self) -> (r: &'static str)
        ensures
            r == round_name(*self),
    {
        match self {
            RoundType::TwoTrios => "2 Tríos (6 cards)",
            RoundType::OneTrioOneEscala => "1 Trío, 1 Escala (7 cards)",
            RoundType::TwoEscalas => "2 Escalas (8 cards)",
            RoundType::ThreeTrios => "3 Tríos (9 cards)",
            RoundType::TwoTriosOneEscala => "2 Tríos, 1 Escala (10 cards)",
            RoundType::OneTrioTwoEscalas => "1 Trío, 2 Escalas (11 cards)",
            RoundType::ThreeEscalas => "3 Escalas (12 cards)",
            RoundType::FourTrios => "4 Tríos (12 cards)",
            RoundType::EscalaReal => "Escala Real (13 cards, same suit)",
        }
    }

    /// `(required_trios, required_escalas)` of the round.
    pub fn get_requirements(&self) -> (r: (usize, usize))
        ensures
            (r.0 as int, r.1 as int) == requirements(*self),
    {
        match self {
            RoundType::TwoTrios => (2, 0),
            RoundType::OneTrioOneEscala => (1, 1),
            RoundType::TwoEscalas => (0, 2),
            RoundType::ThreeTrios => (3, 0),
            RoundType::TwoTriosOneEscala => (2, 1),
            RoundType::OneTrioTwoEscalas => (1, 2),
            RoundType::ThreeEscalas => (0, 3),
            RoundType::FourTrios => (4, 0),
            RoundType::EscalaReal => (0, 1),
        }
    }
}

/// What a finished round reports.
#[derive(Debug, Clone)]
pub struct RoundEndResult {
    pub finished_round_index: usize,
    pub finished_round_name: String,
    pub winner_id: String,
    /// Per player: id, points of this round, total points.
    pub player_scores: Vec<(String, u32, u32)>,
    pub next_round_index: usize,
    pub next_round_name: String,
    pub is_game_over: bool,
}

/// One seat's state in the current round and its total points.
#[derive(Debug, Clone)]
pub struct PlayerState {
    pub id: String,
    pub hand: Vec<Card>,
    pub points: u32,
    /// Whether the player has made their bajada this round.
    pub has_dropped_hand: bool,
    pub dropped_combinations: Vec<Vec<Card>>,
    /// Full turns (draw and discard) completed this round.
    pub turns_played: u32,
    pub has_drawn_this_turn: bool,
    pub dropped_hand_this_turn: bool,
    pub is_ready_for_next_round: bool,
}

/// The authoritative state of one room's game.
#[derive(Clone)]
pub struct GameState {
    pub players: Vec<PlayerState>,
    pub current_round: RoundType,
    pub round_index: usize,
    /// Index into `players` of the player whose turn it is.
    pub current_turn: usize,
    pub deck: Deck,
    pub discard_pile: Vec<Card>,
    pub is_game_over: bool,
    pub is_waiting_for_next_round: bool,
    pub last_action: Option<LastAction>,
}

/// All cards of a sequence of melds.
pub open spec fn melds_cards(ms: Seq<Vec<Card>>) -> Multiset<Card>
    decreases ms.len(),
{
    if ms.len() == 0 {
        Multiset::empty()
    } else {
        melds_cards(ms.drop_last()).add(ms.last()@.to_multiset())
    }
}

/// All cards a player holds: hand and melds on the table.
pub open spec fn player_cards(p: PlayerState) -> Multiset<Card> {
    p.hand@.to_multiset().add(melds_cards(p.dropped_combinations@))
}

pub open spec fn players_cards(ps: Seq<PlayerState>) -> Multiset<Card>
    decreases ps.len(),
{
    if ps.len() == 0 {
        Multiset::empty()
    } else {
        players_cards(ps.drop_last()).add(player_cards(ps.last()))
    }
}

/// Every card in the game: deck, discard pile, hands and table melds.
pub open spec fn all_cards(g: GameState) -> Multiset<Card> {
    g.deck.cards@.to_multiset().add(g.discard_pile@.to_multiset()).add(players_cards(g.players@))
}

/// The cards in the game are exactly one full deck.
pub open spec fn cards_conserved(g: GameState) -> bool {
    all_cards(g) == canonical_deck().to_multiset()
}

/// Every meld on the table is a trio or an escala.
pub open spec fn melds_valid(g: GameState) -> bool {
    forall|i: int, k: int|
        0 <= i < g.players@.len() && 0 <= k < g.players@[i].dropped_combinations@.len() ==> (
        is_trio(#[trigger] g.players@[i].dropped_combinations@[k]@) || is_escala(
            g.players@[i].dropped_combinations@[k]@,
        ))
}

/// No player's points went down from `a` to `b`.
pub open spec fn points_monotone(a: GameState, b: GameState) -> bool {
    &&& a.players@.len() == b.players@.len()
    &&& forall|i: int| 0 <= i < a.players@.len() ==> #[trigger] a.players@[i].points <= b.players@[i].points
}

/// No hand but that of player `t` differs between `a` and `b`.
pub open spec fn other_hands_unchanged(a: GameState, b: GameState, t: int) -> bool {
    &&& a.players@.len() == b.players@.len()
    &&& forall|j: int| 0 <= j < a.players@.len() && j != t ==> #[trigger] b.players@[j].hand@ == a.players@[j].hand@
}

impl GameState {
    /// At most one deck's worth of cards in play (the game keeps exactly
    /// one), no melds on the table for a player without a bajada, a round
    /// index inside the schedule while the game runs, no total above what
    /// the rounds played could give, and at most four seats.
    pub open spec fn wf(&self) -> bool {
        &&& all_cards(*self).len() <= DECK_SIZE
        &&& forall|i: int|
            0 <= i < self.players@.len() && !(#[trigger] self.players@[i]).has_dropped_hand
                ==> self.players@[i].dropped_combinations@.len() == 0
        &&& self.round_index <= ROUND_COUNT
        &&& !self.is_game_over ==> self.round_index < ROUND_COUNT
        &&& forall|i: int|
            0 <= i < self.players@.len() ==> (#[trigger] self.players@[i]).points <= self.round_index
                * MAX_ROUND_POINTS
        &&& self.players@.len() <= MAX_PLAYERS
    }
}

proof fn lemma_players_update(ps: Seq<PlayerState>, i: int, p: PlayerState)
    requires
        0 <= i < ps.len(),
    ensures
        players_cards(ps.update(i, p)).add(player_cards(ps[i])) == players_cards(ps).add(player_cards(p)),
    decreases ps.len(),
{
    broadcast use vstd::multiset::group_multiset_axioms;

    let u = ps.update(i, p);
    if i == ps.len() - 1 {
        assert(u.drop_last() =~= ps.drop_last());
    } else {
        assert(u.drop_last() =~= ps.drop_last().update(i, p));
        assert(u.last() == ps.last());
        lemma_players_update(ps.drop_last(), i, p);
    }
    assert(players_cards(u) == players_cards(u.drop_last()).add(player_cards(u.last())));
    assert(players_cards(ps) == players_cards(ps.drop_last()).add(player_cards(ps.last())));
    assert(u.last() == if i == ps.len() - 1 { p } else { ps.last() });
    assert forall|v: Card| #[trigger] players_cards(u).add(player_cards(ps[i])).count(v) == players_cards(ps).add(player_cards(p)).count(v) by {
        if i < ps.len() - 1 {
            let ih = players_cards(u.drop_last()).add(player_cards(ps[i]));
            assert(ih == players_cards(ps.drop_last()).add(player_cards(p)));
            assert(ih.count(v) == players_cards(ps.drop_last()).add(player_cards(p)).count(v));
        }
    }
    assert(players_cards(u).add(player_cards(ps[i])) =~= players_cards(ps).add(player_cards(p)));
}

proof fn lemma_player_within(ps: Seq<PlayerState>, i: int)
    requires
        0 <= i < ps.len(),
    ensures
        ps[i].hand@.len() <= players_cards(ps).len(),
    decreases ps.len(),
{
    broadcast use vstd::multiset::group_multiset_axioms;

    if i < ps.len() - 1 {
        lemma_player_within(ps.drop_last(), i);
    }
    assert(ps[i].hand@.len() == ps[i].hand@.to_multiset().len());
}

proof fn lemma_melds_update(ms: Seq<Vec<Card>>, k: int, m: Vec<Card>)
    requires
        0 <= k < ms.len(),
    ensures
        melds_cards(ms.update(k, m)).add(ms[k]@.to_multiset()) == melds_cards(ms).add(m@.to_multiset()),
    decreases ms.len(),
{
    broadcast use vstd::multiset::group_multiset_axioms;

    let u = ms.update(k, m);
    if k == ms.len() - 1 {
        assert(u.drop_last() =~= ms.drop_last());
    } else {
        assert(u.drop_last() =~= ms.drop_last().update(k, m));
        assert(u.last() == ms.last());
        lemma_melds_update(ms.drop_last(), k, m);
    }
    assert(melds_cards(u) == melds_cards(u.drop_last()).add(u.last()@.to_multiset()));
    assert(melds_cards(ms) == melds_cards(ms.drop_last()).add(ms.last()@.to_multiset()));
    assert(u.last() == if k == ms.len() - 1 { m } else { ms.last() });
    assert forall|v: Card| #[trigger] melds_cards(u).add(ms[k]@.to_multiset()).count(v) == melds_cards(ms).add(m@.to_multiset()).count(v) by {
        if k < ms.len() - 1 {
            let ih = melds_cards(u.drop_last()).add(ms[k]@.to_multiset());
            assert(ih == melds_cards(ms.drop_last()).add(m@.to_multiset()));
            assert(ih.count(v) == melds_cards(ms.drop_last()).add(m@.to_multiset()).count(v));
        }
    }
    assert(melds_cards(u).add(ms[k]@.to_multiset()) =~= melds_cards(ms).add(m@.to_multiset()));
}

/// A new player with no cards, points or flags.
fn new_player(id: String) -> (p: PlayerState)
    ensures
        p.id == id,
        p.hand@.len() == 0,
        p.points == 0,
        !p.has_dropped_hand,
        p.dropped_combinations@.len() == 0,
        p.turns_played == 0,
        !p.has_drawn_this_turn,
        !p.dropped_hand_this_turn,
        !p.is_ready_for_next_round,
{
    PlayerState {
        id,
        hand: Vec::new(),
        points: 0,
        has_dropped_hand: false,
        dropped_combinations: Vec::new(),
        turns_played: 0,
        has_drawn_this_turn: false,
        dropped_hand_this_turn: false,
        is_ready_for_next_round: false,
    }
}

/// The player fields that only `start_round` resets; the others are as in `p`.
pub open spec fn fresh_round_player(p: PlayerState, q: PlayerState) -> bool {
    &&& q.id == p.id
    &&& q.points == p.points
    &&& !q.has_dropped_hand
    &&& q.dropped_combinations@.len() == 0
    &&& q.turns_played == 0
    &&& !q.has_drawn_this_turn
    &&& !q.dropped_hand_this_turn
    &&& !q.is_ready_for_next_round
}

impl GameState {
    /// A game for the given players (at most four), in seat order, before
    /// its first deal.
    pub fn new(player_ids: Vec<String>) -> (g: GameState)
        requires
            player_ids@.len() <= MAX_PLAYERS,
        ensures
            g.players@.len() == player_ids@.len(),
            forall|i: int|
                0 <= i < g.players@.len() ==> {
                    let p = #[trigger] g.players@[i];
                    &&& p.id@ == player_ids@[i]@
                    &&& p.hand@.len() == 0
                    &&& p.points == 0
                    &&& fresh_round_player(p, p)
                },
            g.current_round == RoundType::TwoTrios,
            g.round_index == 0,
            g.current_turn == 0,
            g.deck.cards@ == canonical_deck(),
            g.discard_pile@.len() == 0,
            !g.is_game_over,
            !g.is_waiting_for_next_round,
            g.last_action is None,
            cards_conserved(g),
            melds_valid(g),
            g.wf(),
    {
        let mut players: Vec<PlayerState> = Vec::new();
        let mut i: usize = 0;
        while i < player_ids.len()
            invariant
                i <= player_ids@.len(),
                players@.len() == i,
                forall|j: int|
                    0 <= j < i ==> {
                        let p = #[trigger] players@[j];
                        &&& p.id@ == player_ids@[j]@
                        &&& p.hand@.len() == 0
                        &&& p.points == 0
                        &&& fresh_round_player(p, p)
                    },
                players_cards(players@) == Multiset::<Card>::empty(),
            decreases player_ids@.len() - i,
        {
            let p = new_player(player_ids[i].clone());
            proof {
                broadcast use vstd::multiset::group_multiset_axioms;

                assert(players@.push(p).drop_last() =~= players@);
                assert(p.hand@.to_multiset() =~= Multiset::<Card>::empty());
                assert(melds_cards(p.dropped_combinations@) == Multiset::<Card>::empty());
                assert(players_cards(players@.push(p)) =~= Multiset::<Card>::empty());
            }
            players.push(p);
            i = i + 1;
        }
        let g = GameState {
            players,
            current_round: RoundType::TwoTrios,
            round_index: 0,
            current_turn: 0,
            deck: Deck::new(),
            discard_pile: Vec::new(),
            is_game_over: false,
            is_waiting_for_next_round: false,
            last_action: None,
        };
        proof {
            broadcast use vstd::multiset::group_multiset_axioms;

            assert(g.discard_pile@.to_multiset() =~= Multiset::<Card>::empty());
            assert(all_cards(g) =~= canonical_deck().to_multiset());
            assert(canonical_deck().to_multiset().len() == DECK_SIZE);
        }
        g
    }

    /// Moves the deck's top card to the hand of player `i`, if the deck has one.
    fn give_top_card(&mut self, i: usize) -> (r: Option<Card>)
        requires
            i < old(self).players@.len(),
        ensures
            old(self).deck.cards@.len() == 0 ==> r is None && *final(self) == *old(self),
            old(self).deck.cards@.len() > 0 ==> {
                &&& r == Some(old(self).deck.cards@.last())
                &&& final(self).deck.cards@ == old(self).deck.cards@.drop_last()
                &&& final(self).players@.len() == old(self).players@.len()
                &&& final(self).players@[i as int].hand@ == old(self).players@[i as int].hand@.push(old(self).deck.cards@.last())
                &&& final(self).players@[i as int].id == old(self).players@[i as int].id
                &&& final(self).players@[i as int].points == old(self).players@[i as int].points
                &&& final(self).players@[i as int].has_dropped_hand == old(self).players@[i as int].has_dropped_hand
                &&& final(self).players@[i as int].dropped_combinations == old(self).players@[i as int].dropped_combinations
                &&& final(self).players@[i as int].turns_played == old(self).players@[i as int].turns_played
                &&& final(self).players@[i as int].has_drawn_this_turn == old(self).players@[i as int].has_drawn_this_turn
                &&& final(self).players@[i as int].dropped_hand_this_turn == old(self).players@[i as int].dropped_hand_this_turn
                &&& final(self).players@[i as int].is_ready_for_next_round == old(self).players@[i as int].is_ready_for_next_round
                &&& forall|j: int| 0 <= j < old(self).players@.len() && j != i ==> #[trigger] final(self).players@[j] == old(self).players@[j]
                &&& final(self).discard_pile == old(self).discard_pile
                &&& final(self).current_round == old(self).current_round
                &&& final(self).round_index == old(self).round_index
                &&& final(self).current_turn == old(self).current_turn
                &&& final(self).is_game_over == old(self).is_game_over
                &&& final(self).is_waiting_for_next_round == old(self).is_waiting_for_next_round
                &&& final(self).last_action == old(self).last_action
            },
            all_cards(*final(self)) == all_cards(*old(self)),
    {
        let ghost g0 = *self;
        if self.deck.cards.len() == 0 {
            return None;
        }
        match self.deck.draw() {
            Some(card) => {
                let ghost p0 = self.players@[i as int];
                self.players[i].hand.push(card);
                proof {
                    broadcast use vstd::multiset::group_multiset_axioms;

                    let p1 = self.players@[i as int];
                    lemma_players_update(g0.players@, i as int, p1);
                    assert(self.players@ == g0.players@.update(i as int, p1));
                    assert(g0.deck.cards@ == g0.deck.cards@.drop_last().push(card));
                    assert(player_cards(p1) =~= player_cards(p0).insert(card));
                    assert(g0.deck.cards@.to_multiset() =~= self.deck.cards@.to_multiset().insert(card));
                    assert forall|v: Card| #[trigger] all_cards(*self).count(v) == all_cards(g0).count(v) by {
                        let a = players_cards(self.players@).add(player_cards(p0));
                        let b = players_cards(g0.players@).add(player_cards(p1));
                        assert(a.count(v) == b.count(v));
                    }
                    assert(all_cards(*self) =~= all_cards(g0));
                }
                Some(card)
            },
            None => None,
        }
    }
}

proof fn lemma_players_empty(ps: Seq<PlayerState>)
    requires
        forall|j: int| 0 <= j < ps.len() ==> (#[trigger] ps[j]).hand@.len() == 0
            && ps[j].dropped_combinations@.len() == 0,
    ensures
        players_cards(ps) == Multiset::<Card>::empty(),
    decreases ps.len(),
{
    broadcast use vstd::multiset::group_multiset_axioms;

    if ps.len() > 0 {
        lemma_players_empty(ps.drop_last());
        let p = ps.last();
        assert(p.hand@.to_multiset() =~= Multiset::<Card>::empty());
        assert(melds_cards(p.dropped_combinations@) == Multiset::<Card>::empty());
        assert(players_cards(ps) =~= Multiset::<Card>::empty());
    }
}

impl GameState {
    /// Starts a round: a freshly shuffled full deck, an empty discard pile,
    /// every player's round flags, hand and melds cleared, twelve cards
    /// dealt to each player in seat order, then one card turned onto the
    /// discard pile.
    pub fn start_round(&mut self)
        ensures
            final(self).players@.len() == old(self).players@.len(),
            forall|i: int|
                0 <= i < old(self).players@.len() ==> fresh_round_player(
                    old(self).players@[i],
                    #[trigger] final(self).players@[i],
                ),
            old(self).players@.len() * HAND_SIZE + 1 <= DECK_SIZE ==> {
                &&& forall|i: int| 0 <= i < old(self).players@.len() ==> (#[trigger] final(self).players@[i]).hand@.len() == HAND_SIZE
                &&& final(self).discard_pile@.len() == 1
                &&& final(self).deck.cards@.len() == DECK_SIZE - old(self).players@.len() * HAND_SIZE - 1
            },
            final(self).current_round == old(self).current_round,
            final(self).round_index == old(self).round_index,
            final(self).current_turn == old(self).current_turn,
            final(self).is_game_over == old(self).is_game_over,
            final(self).is_waiting_for_next_round == old(self).is_waiting_for_next_round,
            final(self).last_action is None,
            cards_conserved(*final(self)),
            melds_valid(*final(self)),
            old(self).wf() ==> final(self).wf(),
    {
        self.deck = Deck::new();
        self.deck.shuffle();
        self.discard_pile.clear();
        self.last_action = None;
        let n = self.players.len();
        let ghost g0 = *old(self);
        let mut i: usize = 0;
        while i < n
            invariant
                n == self.players@.len() == g0.players@.len(),
                i <= n,
                forall|j: int|
                    0 <= j < i ==> fresh_round_player(g0.players@[j], #[trigger] self.players@[j])
                        && self.players@[j].hand@.len() == 0,
                forall|j: int| i <= j < n ==> #[trigger] self.players@[j] == g0.players@[j],
                self.discard_pile@.len() == 0,
                self.deck.cards@.to_multiset() == canonical_deck().to_multiset(),
                self.deck.cards@.len() == DECK_SIZE,
                self.current_round == g0.current_round,
                self.round_index == g0.round_index,
                self.current_turn == g0.current_turn,
                self.is_game_over == g0.is_game_over,
                self.is_waiting_for_next_round == g0.is_waiting_for_next_round,
                self.last_action is None,
            decreases n - i,
        {
            self.players[i].hand.clear();
            self.players[i].has_dropped_hand = false;
            self.players[i].dropped_combinations.clear();
            self.players[i].turns_played = 0;
            self.players[i].has_drawn_this_turn = false;
            self.players[i].dropped_hand_this_turn = false;
            self.players[i].is_ready_for_next_round = false;
            i = i + 1;
        }
        proof {
            broadcast use vstd::multiset::group_multiset_axioms;

            lemma_players_empty(self.players@);
            assert(self.discard_pile@.to_multiset() =~= Multiset::<Card>::empty());
            assert(all_cards(*self) =~= self.deck.cards@.to_multiset());
            assert(all_cards(*self) == canonical_deck().to_multiset());
        }
        let ghost enough = n * HAND_SIZE + 1 <= DECK_SIZE;
        let mut i: usize = 0;
        while i < n
            invariant
                n == self.players@.len() == g0.players@.len(),
                i <= n,
                enough == (n * HAND_SIZE + 1 <= DECK_SIZE),
                forall|j: int| 0 <= j < n ==> fresh_round_player(g0.players@[j], #[trigger] self.players@[j]),
                enough ==> forall|j: int| 0 <= j < i ==> (#[trigger] self.players@[j]).hand@.len() == HAND_SIZE,
                forall|j: int| i <= j < n ==> (#[trigger] self.players@[j]).hand@.len() == 0,
                enough ==> self.deck.cards@.len() == DECK_SIZE - i * HAND_SIZE,
                self.discard_pile@.len() == 0,
                self.current_round == g0.current_round,
                self.round_index == g0.round_index,
                self.current_turn == g0.current_turn,
                self.is_game_over == g0.is_game_over,
                self.is_waiting_for_next_round == g0.is_waiting_for_next_round,
                self.last_action is None,
                all_cards(*self) == canonical_deck().to_multiset(),
            decreases n - i,
        {
            let mut k: usize = 0;
            proof {
                if enough {
                    assert(i * HAND_SIZE + HAND_SIZE <= n * HAND_SIZE) by (nonlinear_arith)
                        requires i < n;
                }
            }
            while k < HAND_SIZE
                invariant
                    n == self.players@.len() == g0.players@.len(),
                    i < n,
                    k <= HAND_SIZE,
                    enough == (n * HAND_SIZE + 1 <= DECK_SIZE),
                    enough ==> i * HAND_SIZE + HAND_SIZE <= n * HAND_SIZE,
                    forall|j: int| 0 <= j < n ==> fresh_round_player(g0.players@[j], #[trigger] self.players@[j]),
                    enough ==> forall|j: int| 0 <= j < i ==> (#[trigger] self.players@[j]).hand@.len() == HAND_SIZE,
                    forall|j: int| i < j < n ==> (#[trigger] self.players@[j]).hand@.len() == 0,
                    enough ==> self.players@[i as int].hand@.len() == k,
                    enough ==> self.deck.cards@.len() == DECK_SIZE - i * HAND_SIZE - k,
                    self.discard_pile@.len() == 0,
                    self.current_round == g0.current_round,
                    self.round_index == g0.round_index,
                    self.current_turn == g0.current_turn,
                    self.is_game_over == g0.is_game_over,
                    self.is_waiting_for_next_round == g0.is_waiting_for_next_round,
                    self.last_action is None,
                    all_cards(*self) == canonical_deck().to_multiset(),
                decreases HAND_SIZE - k,
            {
                let _ = self.give_top_card(i);
                k = k + 1;
            }
            i = i + 1;
        }
        let ghost g1 = *self;
        if let Some(card) = self.deck.draw() {
            self.discard_pile.push(card);
            proof {
                broadcast use vstd::multiset::group_multiset_axioms;

                assert(g1.deck.cards@ == self.deck.cards@.push(card));
                assert(g1.deck.cards@.to_multiset() =~= self.deck.cards@.to_multiset().insert(card));
                assert(self.discard_pile@ == seq![card]);
                assert(self.discard_pile@ == Seq::<Card>::empty().push(card));
                assert(all_cards(*self) =~= all_cards(g1));
            }
        }
        proof {
            assert(canonical_deck().to_multiset().len() == DECK_SIZE);
        }
    }
}

proof fn lemma_players_same_cards(ps: Seq<PlayerState>, i: int, q: PlayerState)
    requires
        0 <= i < ps.len(),
        player_cards(q) == player_cards(ps[i]),
    ensures
        players_cards(ps.update(i, q)) == players_cards(ps),
{
    broadcast use vstd::multiset::group_multiset_axioms;

    lemma_players_update(ps, i, q);
    assert forall|v: Card| #[trigger] players_cards(ps.update(i, q)).count(v) == players_cards(ps).count(v) by {
        assert(players_cards(ps.update(i, q)).add(player_cards(ps[i])).count(v)
            == players_cards(ps).add(player_cards(q)).count(v));
    }
    assert(players_cards(ps.update(i, q)) =~= players_cards(ps));
}

/// Error while the game is over.
pub const ERR_GAME_OVER: &'static str = "Game is over";
/// Error while the game waits for players to be ready.
pub const ERR_WAITING: &'static str = "Waiting for other players to be ready for the next round";
/// Error when the bajada of the last round is not one 13-card escala.
pub const ERR_ESCALA_REAL: &'static str = "The Escala Real must be 13 cards of one suit";
/// Error when `current_turn` names no player.
pub const ERR_INVALID_TURN: &'static str = "Invalid turn";

/// Why no gameplay action is accepted in `g`, if any: the game is over,
/// or waits between rounds, or the turn names no player.
pub open spec fn play_blocked(g: GameState) -> Option<&'static str> {
    if g.is_game_over {
        Some(ERR_GAME_OVER)
    } else if g.is_waiting_for_next_round {
        Some(ERR_WAITING)
    } else if g.current_turn >= g.players@.len() {
        Some(ERR_INVALID_TURN)
    } else {
        None
    }
}

/// Player `q` is `p` with only the hand and the per-turn draw flag changed.
pub open spec fn same_but_hand(p: PlayerState, q: PlayerState) -> bool {
    &&& q.id == p.id
    &&& q.points == p.points
    &&& q.has_dropped_hand == p.has_dropped_hand
    &&& q.dropped_combinations == p.dropped_combinations
    &&& q.turns_played == p.turns_played
    &&& q.dropped_hand_this_turn == p.dropped_hand_this_turn
    &&& q.is_ready_for_next_round == p.is_ready_for_next_round
}

/// `b` differs from `a` at most in player `t`, the deck, the discard pile
/// and the last action.
pub open spec fn only_turn_player_changed(a: GameState, b: GameState, t: int) -> bool {
    &&& b.players@.len() == a.players@.len()
    &&& forall|j: int| 0 <= j < a.players@.len() && j != t ==> #[trigger] b.players@[j] == a.players@[j]
    &&& b.current_round == a.current_round
    &&& b.round_index == a.round_index
    &&& b.current_turn == a.current_turn
    &&& b.is_game_over == a.is_game_over
    &&& b.is_waiting_for_next_round == a.is_waiting_for_next_round
}

impl GameState {
    /// The player whose turn it is, if `current_turn` names one.
    pub fn current_player(&mut self) -> (r: Option<&mut PlayerState>)
        ensures
            old(self).current_turn >= old(self).players@.len() ==> r is None,
            old(self).current_turn < old(self).players@.len() ==> (r matches Some(p) && *p
                == old(self).players@[old(self).current_turn as int]),
    {
        let idx = self.current_turn;
        if idx < self.players.len() {
            Some(&mut self.players[idx])
        } else {
            None
        }
    }

    /// The current player draws the deck's top card.
    pub fn draw_from_deck(&mut self) -> (r: Result<(), &'static str>)
        ensures
            draw_from_deck_post(*old(self), *final(self), r),
            all_cards(*final(self)) == all_cards(*old(self)),
            old(self).wf() ==> final(self).wf(),
            melds_valid(*old(self)) ==> melds_valid(*final(self)),
            points_monotone(*old(self), *final(self)),
            other_hands_unchanged(*old(self), *final(self), old(self).current_turn as int),
    {
        if self.is_game_over {
            return Err(ERR_GAME_OVER);
        }
        if self.is_waiting_for_next_round {
            return Err(ERR_WAITING);
        }
        if self.deck.remaining() == 0 {
            return Err("Deck is empty");
        }
        let idx = self.current_turn;
        if idx >= self.players.len() {
            return Err(ERR_INVALID_TURN);
        }
        if self.players[idx].has_drawn_this_turn {
            return Err("You have already drawn a card this turn");
        }
        let _ = self.give_top_card(idx);
        let ghost g1 = *self;
        self.players[idx].has_drawn_this_turn = true;
        proof {
            lemma_players_same_cards(g1.players@, idx as int, self.players@[idx as int]);
            assert(self.players@ == g1.players@.update(idx as int, self.players@[idx as int]));
        }
        let pid = self.players[idx].id.clone();
        self.last_action = Some(
            LastAction { player_id: pid, action_type: "drew_from_deck".to_owned(), card: None },
        );
        Ok(())
    }
}

proof fn lemma_players_cards_ext(a: Seq<PlayerState>, b: Seq<PlayerState>)
    requires
        a.len() == b.len(),
        forall|i: int| 0 <= i < a.len() ==> (#[trigger] a[i]).hand@ == b[i].hand@ && a[i].dropped_combinations@ == b[i].dropped_combinations@,
    ensures
        players_cards(a) == players_cards(b),
    decreases a.len(),
{
    if a.len() > 0 {
        lemma_players_cards_ext(a.drop_last(), b.drop_last());
        assert(a.last().hand@ == b.last().hand@);
    }
}

pub proof fn lemma_hands_within(g: GameState)
    requires
        g.wf(),
    ensures
        forall|i: int| 0 <= i < g.players@.len() ==> (#[trigger] g.players@[i]).hand@.len() <= DECK_SIZE,
{
    broadcast use vstd::multiset::group_multiset_axioms;

    assert forall|i: int| 0 <= i < g.players@.len() implies (#[trigger] g.players@[i]).hand@.len() <= DECK_SIZE by {
        lemma_player_within(g.players@, i);
    }
}

/// Points of the round added to a total.
pub open spec fn add_points(total: u32, round: int) -> int {
    total + round
}

/// How `end_round` turns `g` into `h` and reports `res`: each player's
/// hand points are added to their total; the round index advances; within
/// the schedule the next round type is set, the turn goes to the seat
/// `round_index mod players`, the game waits and bot seats are marked
/// ready; past it the game is over.
pub open spec fn round_ended(g: GameState, h: GameState, res: RoundEndResult) -> bool {
    let n = g.players@.len();
    let next = g.round_index + 1;
    &&& res.finished_round_index == g.round_index
    &&& res.finished_round_name@ == round_name(g.current_round)@
    &&& res.winner_id == g.players@[g.current_turn as int].id
    &&& h.players@.len() == n
    &&& res.player_scores@.len() == n
    &&& forall|i: int|
        0 <= i < n ==> {
            let p = g.players@[i];
            let q = #[trigger] h.players@[i];
            &&& q.points as int == add_points(p.points, hand_points(p.hand@))
            &&& res.player_scores@[i].0 == p.id
            &&& res.player_scores@[i].1 as int == hand_points(p.hand@)
            &&& res.player_scores@[i].2 == q.points
            &&& q.id == p.id
            &&& q.hand == p.hand
            &&& q.has_dropped_hand == p.has_dropped_hand
            &&& q.dropped_combinations == p.dropped_combinations
            &&& q.turns_played == p.turns_played
            &&& q.has_drawn_this_turn == p.has_drawn_this_turn
            &&& q.dropped_hand_this_turn == p.dropped_hand_this_turn
            &&& q.is_ready_for_next_round == if next < ROUND_COUNT {
                is_prefix(BOT_PREFIX@, p.id@)
            } else {
                p.is_ready_for_next_round
            }
        }
    &&& h.round_index == next
    &&& res.next_round_index == next
    &&& h.deck == g.deck
    &&& h.discard_pile == g.discard_pile
    &&& if next < ROUND_COUNT {
        &&& h.current_round == round_schedule()[next]
        &&& h.current_turn == next % (n as int)
        &&& h.is_waiting_for_next_round
        &&& !h.is_game_over
        &&& res.next_round_name@ == round_name(h.current_round)@
        &&& !res.is_game_over
    } else {
        &&& h.current_round == g.current_round
        &&& h.current_turn == g.current_turn
        &&& h.is_waiting_for_next_round == g.is_waiting_for_next_round
        &&& h.is_game_over
        &&& res.next_round_name@ == "Game Over"@
        &&& res.is_game_over
    }
}

impl GameState {
    /// Ends the round won by the current player: scores every hand, then
    /// moves on to the next round (waiting for players to be ready) or ends
    /// the game after the ninth.
    pub fn end_round(&mut self) -> (res: RoundEndResult)
        requires
            old(self).current_turn < old(self).players@.len(),
            old(self).wf(),
            !old(self).is_game_over,
        ensures
            round_ended(*old(self), *final(self), res),
            final(self).last_action == old(self).last_action,
            all_cards(*final(self)) == all_cards(*old(self)),
            final(self).wf(),
            melds_valid(*old(self)) ==> melds_valid(*final(self)),
            points_monotone(*old(self), *final(self)),
            other_hands_unchanged(*old(self), *final(self), old(self).current_turn as int),
    {
        let ghost g = *self;
        proof {
            lemma_hands_within(g);
        }
        let n = self.players.len();
        let finished_round_index = self.round_index;
        let finished_round_name = self.current_round.description().to_owned();
        let winner_id = self.players[self.current_turn].id.clone();
        let mut round_points: Vec<u32> = Vec::new();
        let mut i: usize = 0;
        while i < n
            invariant
                n == self.players@.len(),
                *self == g,
                i <= n,
                round_points@.len() == i,
                forall|j: int| 0 <= j < n ==> (#[trigger] g.players@[j]).hand@.len() <= DECK_SIZE,
                forall|j: int| 0 <= j < i ==> #[trigger] round_points@[j] as int == hand_points(g.players@[j].hand@),
            decreases n - i,
        {
            round_points.push(calculate_hand_points(self.players[i].hand.as_slice()));
            i = i + 1;
        }
        let mut i: usize = 0;
        while i < n
            invariant
                n == self.players@.len() == g.players@.len(),
                i <= n,
                round_points@.len() == n,
                g.wf(),
                !g.is_game_over,
                forall|j: int| 0 <= j < n ==> (#[trigger] g.players@[j]).hand@.len() <= DECK_SIZE,
                forall|j: int| 0 <= j < n ==> #[trigger] round_points@[j] as int == hand_points(g.players@[j].hand@),
                forall|j: int|
                    0 <= j < n ==> {
                        let p = g.players@[j];
                        let q = #[trigger] self.players@[j];
                        &&& q.points as int == if j < i { add_points(p.points, hand_points(p.hand@)) } else { p.points as int }
                        &&& q.id == p.id
                        &&& q.hand == p.hand
                        &&& q.has_dropped_hand == p.has_dropped_hand
                        &&& q.dropped_combinations == p.dropped_combinations
                        &&& q.turns_played == p.turns_played
                        &&& q.has_drawn_this_turn == p.has_drawn_this_turn
                        &&& q.dropped_hand_this_turn == p.dropped_hand_this_turn
                        &&& q.is_ready_for_next_round == p.is_ready_for_next_round
                    },
                self.deck == g.deck,
                self.discard_pile == g.discard_pile,
                self.round_index == g.round_index,
                self.current_round == g.current_round,
                self.current_turn == g.current_turn,
                self.is_game_over == g.is_game_over,
                self.is_waiting_for_next_round == g.is_waiting_for_next_round,
                self.last_action == g.last_action,
            decreases n - i,
        {
            proof {
                lemma_hand_points_bounds(g.players@[i as int].hand@);
                assert(g.players@[i as int].points <= g.round_index * MAX_ROUND_POINTS);
                assert(g.round_index * MAX_ROUND_POINTS <= 8 * MAX_ROUND_POINTS) by (nonlinear_arith)
                    requires
                        g.round_index <= 8,
                ;
            }
            let total = self.players[i].points + round_points[i];
            self.players[i].points = total;
            i = i + 1;
        }
        let mut player_scores: Vec<(String, u32, u32)> = Vec::new();
        let ghost g2 = *self;
        let mut i: usize = 0;
        while i < n
            invariant
                *self == g2,
                n == self.players@.len() == g.players@.len(),
                forall|j: int| 0 <= j < n ==> (#[trigger] self.players@[j]).id == g.players@[j].id,
                i <= n,
                round_points@.len() == n,
                player_scores@.len() == i,
                forall|j: int| 0 <= j < n ==> #[trigger] round_points@[j] as int == hand_points(g.players@[j].hand@),
                forall|j: int|
                    0 <= j < i ==> {
                        &&& (#[trigger] player_scores@[j]).0 == g.players@[j].id
                        &&& player_scores@[j].1 == round_points@[j]
                        &&& player_scores@[j].2 == self.players@[j].points
                    },
            decreases n - i,
        {
            player_scores.push((self.players[i].id.clone(), round_points[i], self.players[i].points));
            i = i + 1;
        }
        self.round_index = self.round_index + 1;
        let rounds = RoundType::all_rounds();
        let is_game_over;
        let next_round_index;
        let next_round_name;
        let ghost h0 = *self;
        if self.round_index < rounds.len() {
            self.current_round = rounds[self.round_index];
            self.current_turn = self.round_index % n;
            next_round_index = self.round_index;
            next_round_name = self.current_round.description().to_owned();
            is_game_over = false;
            self.is_waiting_for_next_round = true;
            let mut i: usize = 0;
            while i < n
                invariant
                    n == self.players@.len() == h0.players@.len(),
                    i <= n,
                    forall|j: int|
                        0 <= j < n ==> {
                            let p = h0.players@[j];
                            let q = #[trigger] self.players@[j];
                            &&& q.points == p.points
                            &&& q.id == p.id
                            &&& q.hand == p.hand
                            &&& q.has_dropped_hand == p.has_dropped_hand
                            &&& q.dropped_combinations == p.dropped_combinations
                            &&& q.turns_played == p.turns_played
                            &&& q.has_drawn_this_turn == p.has_drawn_this_turn
                            &&& q.dropped_hand_this_turn == p.dropped_hand_this_turn
                            &&& q.is_ready_for_next_round == if j < i { is_prefix(BOT_PREFIX@, p.id@) } else { p.is_ready_for_next_round }
                        },
                    self.deck == h0.deck,
                    self.discard_pile == h0.discard_pile,
                    self.round_index == h0.round_index,
                    h0.round_index < ROUND_COUNT,
                    self.current_round == round_schedule()[h0.round_index as int],
                    self.current_turn == h0.round_index % n,
                    !self.is_game_over,
                    self.is_waiting_for_next_round,
                    self.last_action == h0.last_action,
                decreases n - i,
            {
                let bot = is_bot_id(self.players[i].id.as_str());
                self.players[i].is_ready_for_next_round = bot;
                i = i + 1;
            }
        } else {
            self.is_game_over = true;
            is_game_over = true;
            next_round_index = self.round_index;
            next_round_name = "Game Over".to_owned();
        }
        proof {
            lemma_players_cards_ext(self.players@, g.players@);
            assert forall|i: int| 0 <= i < n implies (#[trigger] self.players@[i]).points <= self.round_index
                * MAX_ROUND_POINTS by {
                lemma_hand_points_bounds(g.players@[i].hand@);
                assert(g.players@[i].points <= g.round_index * MAX_ROUND_POINTS);
                assert(g.round_index * MAX_ROUND_POINTS + MAX_ROUND_POINTS == (g.round_index + 1) * MAX_ROUND_POINTS)
                    by (nonlinear_arith);
            }
            assert forall|i: int| 0 <= i < n implies #[trigger] g.players@[i].points <= self.players@[i].points by {
                lemma_hand_points_bounds(g.players@[i].hand@);
            }
        }
        RoundEndResult {
            finished_round_index,
            finished_round_name,
            winner_id,
            player_scores,
            next_round_index,
            next_round_name,
            is_game_over,
        }
    }
}

/// What `draw_from_deck` does to `g`, giving `h` and the result `r`.
pub open spec fn draw_from_deck_post(g: GameState, h: GameState, r: Result<(), &'static str>) -> bool {
    let t = g.current_turn as int;
    let err = if play_blocked(g) is Some && play_blocked(g) != Some(ERR_INVALID_TURN) {
        play_blocked(g)
    } else if g.deck.cards@.len() == 0 {
        Some("Deck is empty")
    } else if play_blocked(g) is Some {
        play_blocked(g)
    } else if g.players@[t].has_drawn_this_turn {
        Some("You have already drawn a card this turn")
    } else {
        None
    };
    &&& err matches Some(e) ==> r == Err::<(), &'static str>(e) && h == g
    &&& err is None ==> {
        &&& r is Ok
        &&& h.deck.cards@ == g.deck.cards@.drop_last()
        &&& h.players@[t].hand@ == g.players@[t].hand@.push(g.deck.cards@.last())
        &&& h.players@[t].has_drawn_this_turn
        &&& same_but_hand(g.players@[t], h.players@[t])
        &&& only_turn_player_changed(g, h, t)
        &&& h.discard_pile == g.discard_pile
    }
}

/// What `draw_from_discard` does to `g`, giving `h` and the result `r`.
pub open spec fn draw_from_discard_post(g: GameState, h: GameState, r: Result<(), &'static str>) -> bool {
    let t = g.current_turn as int;
    let err = if play_blocked(g) is Some {
        play_blocked(g)
    } else if g.players@[t].has_drawn_this_turn {
        Some("You have already drawn a card this turn")
    } else if g.players@[t].has_dropped_hand {
        Some("Cannot draw from discard after dropping hand")
    } else if g.discard_pile@.len() == 0 {
        Some("Discard pile is empty")
    } else {
        None
    };
    &&& err matches Some(e) ==> r == Err::<(), &'static str>(e) && h == g
    &&& err is None ==> {
        &&& r is Ok
        &&& h.discard_pile@ == g.discard_pile@.drop_last()
        &&& h.players@[t].hand@ == g.players@[t].hand@.push(g.discard_pile@.last())
        &&& h.players@[t].has_drawn_this_turn
        &&& same_but_hand(g.players@[t], h.players@[t])
        &&& only_turn_player_changed(g, h, t)
        &&& h.deck == g.deck
    }
}

/// What `discard` does to `g`, giving `h` and the result `r`.
pub open spec fn discard_post(g: GameState, h: GameState, card_index: usize, r: Result<Option<RoundEndResult>, &'static str>) -> bool {
    let t = g.current_turn as int;
    let err = if play_blocked(g) is Some {
        play_blocked(g)
    } else if !g.players@[t].has_drawn_this_turn {
        Some("You must draw a card before discarding")
    } else if card_index >= g.players@[t].hand@.len() {
        Some("Card index out of bounds")
    } else {
        None
    };
    &&& err matches Some(e) ==> r == Err::<Option<RoundEndResult>, &'static str>(e) && h == g
    &&& err is None && g.players@[t].hand@.len() == 1 ==> (r matches Ok(Some(res))
        && exists|m: GameState| #[trigger] discarded(g, m, card_index as int) && round_ended(m, h, res))
    &&& err is None && g.players@[t].hand@.len() > 1 ==> (r matches Ok(None)
        && exists|m: GameState| #[trigger] discarded(g, m, card_index as int) && turn_passed(m, h))
}

/// What `reorder_hand` does to `g`, giving `h` and the result `r`.
pub open spec fn reorder_hand_post(g: GameState, h: GameState, player_id: Seq<char>, new_hand: Seq<Card>, r: Result<(), &'static str>) -> bool {
    let i = seat_of(g.players@, player_id);
    let err = if !has_id(g.players@, player_id) {
        Some("Player not found")
    } else if g.players@[i].hand@.len() != new_hand.len() {
        Some("New hand length does not match current hand length")
    } else if new_hand.to_multiset() != g.players@[i].hand@.to_multiset() {
        Some("New hand contains an unknown card or extra duplicate")
    } else {
        None
    };
    &&& err matches Some(e) ==> r == Err::<(), &'static str>(e) && h == g
    &&& err is None ==> {
        &&& r is Ok
        &&& h.players@[i].hand@ == new_hand
        &&& same_but_hand(g.players@[i], h.players@[i])
        &&& h.players@[i].has_drawn_this_turn == g.players@[i].has_drawn_this_turn
        &&& only_turn_player_changed(g, h, i)
        &&& h.deck == g.deck
        &&& h.discard_pile == g.discard_pile
        &&& h.last_action == g.last_action
    }
    &&& has_id(g.players@, player_id) && new_hand == g.players@[i].hand@ ==> r is Ok
}

/// What `drop_hand` does to `g`, giving `h` and the result `r`.
pub open spec fn drop_hand_post(g: GameState, h: GameState, player_id: Seq<char>, combinations: Seq<Vec<Card>>, r: Result<(), &'static str>) -> bool {
    let t = g.current_turn as int;
    let p = g.players@[t];
    let req = requirements(g.current_round);
    let cs = combinations;
    let err = if play_blocked(g) is Some {
        play_blocked(g)
    } else if p.id@ != player_id {
        Some("Not your turn")
    } else if !p.has_drawn_this_turn {
        Some("You must draw a card before trying to drop your hand")
    } else if p.has_dropped_hand {
        Some("Hand already dropped")
    } else if !flat_cards(cs).to_multiset().subset_of(p.hand@.to_multiset()) {
        Some("Combinations contain cards not in player's hand")
    } else if !all_melds_ok(cs) {
        Some("Invalid combination: trios must be at least 3 cards, escalas at least 4")
    } else if trio_count(cs) != req.0 || cs.len() - trio_count(cs) != req.1 {
        Some("Combinations do not match the current round requirements")
    } else if g.current_round == RoundType::EscalaReal && cs[0]@.len() != 13 {
        Some(ERR_ESCALA_REAL)
    } else {
        None
    };
    &&& err matches Some(e) ==> r == Err::<(), &'static str>(e) && h == g
    &&& err is None ==> {
        let q = h.players@[t];
        &&& r is Ok
        &&& q.hand@.to_multiset().add(flat_cards(cs).to_multiset()) == p.hand@.to_multiset()
        &&& q.dropped_combinations@ == cs
        &&& q.has_dropped_hand
        &&& q.dropped_hand_this_turn
        &&& q.id == p.id
        &&& q.points == p.points
        &&& q.turns_played == p.turns_played
        &&& q.has_drawn_this_turn == p.has_drawn_this_turn
        &&& q.is_ready_for_next_round == p.is_ready_for_next_round
        &&& only_turn_player_changed(g, h, t)
        &&& h.deck == g.deck
        &&& h.discard_pile == g.discard_pile
    }
}

/// What `shed_card` does to `g`, giving `h` and the result `r`.
pub open spec fn shed_card_post(g: GameState, h: GameState, player_id: Seq<char>, hand_card_index: usize, target_player_id: Seq<char>, target_combo_idx: usize, r: Result<Option<RoundEndResult>, &'static str>) -> bool {
    let t = g.current_turn as int;
    let p = g.players@[t];
    let tgt = seat_of(g.players@, target_player_id);
    let err = if play_blocked(g) is Some {
        play_blocked(g)
    } else if p.id@ != player_id {
        Some("Not your turn")
    } else if !p.has_dropped_hand {
        Some("You must drop your hand before shedding cards")
    } else if p.dropped_hand_this_turn {
        Some("You cannot shed cards on the same turn you drop your hand")
    } else if !p.has_drawn_this_turn {
        Some("You must draw a card before shedding cards")
    } else if hand_card_index >= p.hand@.len() {
        Some("Card index out of bounds")
    } else if !has_id(g.players@, target_player_id) {
        Some("Target player not found")
    } else if !g.players@[tgt].has_dropped_hand {
        Some("Target player has not dropped their hand yet")
    } else if target_combo_idx >= g.players@[tgt].dropped_combinations@.len() {
        Some("Target combo index out of bounds")
    } else if shed_position(
        p.hand@[hand_card_index as int],
        g.players@[tgt].dropped_combinations@[target_combo_idx as int]@,
    ) is None {
        Some("This card cannot be shed onto that combo")
    } else {
        None
    };
    &&& err matches Some(e) ==> r == Err::<Option<RoundEndResult>, &'static str>(e) && h == g
    &&& err is None && p.hand@.len() > 1 ==> (r matches Ok(None) && shed_applied(
        g,
        h,
        hand_card_index as int,
        tgt,
        target_combo_idx as int,
    ))
    &&& err is None && p.hand@.len() == 1 ==> (r matches Ok(Some(res)) && exists|m: GameState|
        #[trigger] shed_applied(g, m, hand_card_index as int, tgt, target_combo_idx as int)
            && round_ended(m, h, res))
}

/// What `mark_player_ready` does to `g`, giving `h` and the result `r`.
pub open spec fn mark_player_ready_post(g: GameState, h: GameState, player_id: Seq<char>, r: Result<(), &'static str>) -> bool {
    let i = seat_of(g.players@, player_id);
    let err = if !g.is_waiting_for_next_round {
        Some("Game is not waiting for next round")
    } else if !has_id(g.players@, player_id) {
        Some("Player not found")
    } else {
        None
    };
    let others_ready = forall|j: int| 0 <= j < g.players@.len() && j != i ==> (#[trigger] g.players@[j]).is_ready_for_next_round;
    &&& err matches Some(e) ==> r == Err::<(), &'static str>(e) && h == g
    &&& err is None && !others_ready ==> {
        &&& r is Ok
        &&& h.players@[i].is_ready_for_next_round
        &&& h.players@[i].hand == g.players@[i].hand
        &&& h.players@[i].dropped_combinations == g.players@[i].dropped_combinations
        &&& h.players@[i].points == g.players@[i].points
        &&& h.players@[i].id == g.players@[i].id
        &&& only_turn_player_changed(g, h, i)
        &&& h.deck == g.deck
        &&& h.discard_pile == g.discard_pile
    }
    &&& err is None && others_ready ==> {
        &&& r is Ok
        &&& !h.is_waiting_for_next_round
        &&& h.players@.len() == g.players@.len()
        &&& forall|j: int| 0 <= j < g.players@.len() ==> fresh_round_player(g.players@[j], #[trigger] h.players@[j])
        &&& cards_conserved(h)
        &&& h.round_index == g.round_index
        &&& h.current_round == g.current_round
        &&& h.current_turn == g.current_turn
        &&& forall|j: int| 0 <= j < g.players@.len() ==> (#[trigger] h.players@[j]).hand@.len() == HAND_SIZE
        &&& h.discard_pile@.len() == 1
        &&& h.deck.cards@.len() == DECK_SIZE - g.players@.len() * HAND_SIZE - 1
    }
}

/// `n + 1`, capped at `u32::MAX`.
pub open spec fn bump(n: u32) -> u32 {
    if n == u32::MAX {
        n
    } else {
        (n + 1) as u32
    }
}

/// The state `m` right after the current player of `g` discards
/// `hand[ci]`: the card tops the discard pile, a turn is counted and the
/// per-turn flags are cleared; nothing else changes.
pub open spec fn discarded(g: GameState, m: GameState, ci: int) -> bool {
    let t = g.current_turn as int;
    let p = g.players@[t];
    let q = m.players@[t];
    &&& only_turn_player_changed(g, m, t)
    &&& m.deck == g.deck
    &&& m.discard_pile@ == g.discard_pile@.push(p.hand@[ci])
    &&& q.hand@ == p.hand@.remove(ci)
    &&& q.turns_played == bump(p.turns_played)
    &&& !q.has_drawn_this_turn
    &&& !q.dropped_hand_this_turn
    &&& q.id == p.id
    &&& q.points == p.points
    &&& q.has_dropped_hand == p.has_dropped_hand
    &&& q.dropped_combinations == p.dropped_combinations
    &&& q.is_ready_for_next_round == p.is_ready_for_next_round
}

/// `h` is `m` with the turn passed to the next seat, whose per-turn flags
/// are cleared.
pub open spec fn turn_passed(m: GameState, h: GameState) -> bool {
    let n = m.players@.len() as int;
    let next = (m.current_turn + 1) % n;
    let p = m.players@[next];
    let q = h.players@[next];
    &&& h.current_turn == next
    &&& h.players@.len() == n
    &&& forall|j: int| 0 <= j < n && j != next ==> #[trigger] h.players@[j] == m.players@[j]
    &&& !q.has_drawn_this_turn
    &&& !q.dropped_hand_this_turn
    &&& q.id == p.id
    &&& q.hand == p.hand
    &&& q.points == p.points
    &&& q.has_dropped_hand == p.has_dropped_hand
    &&& q.dropped_combinations == p.dropped_combinations
    &&& q.turns_played == p.turns_played
    &&& q.is_ready_for_next_round == p.is_ready_for_next_round
    &&& h.deck == m.deck
    &&& h.discard_pile == m.discard_pile
    &&& h.current_round == m.current_round
    &&& h.round_index == m.round_index
    &&& h.is_game_over == m.is_game_over
    &&& h.is_waiting_for_next_round == m.is_waiting_for_next_round
}

impl GameState {
    /// The current player takes the top of the discard pile (the pozo);
    /// not allowed once they have made their bajada.
    pub fn draw_from_discard(&mut self) -> (r: Result<(), &'static str>)
        ensures
            draw_from_discard_post(*old(self), *final(self), r),
            all_cards(*final(self)) == all_cards(*old(self)),
            old(self).wf() ==> final(self).wf(),
            melds_valid(*old(self)) ==> melds_valid(*final(self)),
            points_monotone(*old(self), *final(self)),
            other_hands_unchanged(*old(self), *final(self), old(self).current_turn as int),
    {
        if self.is_game_over {
            return Err(ERR_GAME_OVER);
        }
        if self.is_waiting_for_next_round {
            return Err(ERR_WAITING);
        }
        let idx = self.current_turn;
        if idx >= self.players.len() {
            return Err(ERR_INVALID_TURN);
        }
        if self.players[idx].has_drawn_this_turn {
            return Err("You have already drawn a card this turn");
        }
        if self.players[idx].has_dropped_hand {
            return Err("Cannot draw from discard after dropping hand");
        }
        if self.discard_pile.len() == 0 {
            return Err("Discard pile is empty");
        }
        let ghost g0 = *self;
        let card = match self.discard_pile.pop() {
            Some(c) => c,
            None => return Err("Discard pile is empty"),
        };
        self.players[idx].hand.push(card);
        self.players[idx].has_drawn_this_turn = true;
        proof {
            broadcast use vstd::multiset::group_multiset_axioms;

            let p0 = g0.players@[idx as int];
            let p1 = self.players@[idx as int];
            assert(self.players@ == g0.players@.update(idx as int, p1));
            lemma_players_update(g0.players@, idx as int, p1);
            assert(g0.discard_pile@ == self.discard_pile@.push(card));
            assert(player_cards(p1) =~= player_cards(p0).insert(card));
            assert forall|v: Card| #[trigger] all_cards(*self).count(v) == all_cards(g0).count(v) by {
                let a = players_cards(self.players@).add(player_cards(p0));
                let b = players_cards(g0.players@).add(player_cards(p1));
                assert(a.count(v) == b.count(v));
            }
            assert(all_cards(*self) =~= all_cards(g0));
        }
        let pid = self.players[idx].id.clone();
        self.last_action = Some(
            LastAction { player_id: pid, action_type: "drew_from_pozo".to_owned(), card: Some(card) },
        );
        Ok(())
    }

    /// The current player discards `hand[card_index]`, ending their turn.
    /// If that empties their hand they win the round, which ends and is
    /// reported; otherwise the turn passes to the next seat.
    pub fn discard(&mut self, card_index: usize) -> (r: Result<Option<RoundEndResult>, &'static str>)
        requires
            old(self).wf(),
        ensures
            discard_post(*old(self), *final(self), card_index, r),
            all_cards(*final(self)) == all_cards(*old(self)),
            final(self).wf(),
            melds_valid(*old(self)) ==> melds_valid(*final(self)),
            points_monotone(*old(self), *final(self)),
            other_hands_unchanged(*old(self), *final(self), old(self).current_turn as int),
    {
        if self.is_game_over {
            return Err(ERR_GAME_OVER);
        }
        if self.is_waiting_for_next_round {
            return Err(ERR_WAITING);
        }
        let idx = self.current_turn;
        if idx >= self.players.len() {
            return Err(ERR_INVALID_TURN);
        }
        if !self.players[idx].has_drawn_this_turn {
            return Err("You must draw a card before discarding");
        }
        if card_index >= self.players[idx].hand.len() {
            return Err("Card index out of bounds");
        }
        let ghost g0 = *self;
        let card = self.players[idx].hand.remove(card_index);
        let hand_is_empty = self.players[idx].hand.len() == 0;
        self.discard_pile.push(card);
        let turns = self.players[idx].turns_played.saturating_add(1);
        self.players[idx].turns_played = turns;
        self.players[idx].has_drawn_this_turn = false;
        self.players[idx].dropped_hand_this_turn = false;
        let pid = self.players[idx].id.clone();
        self.last_action = Some(
            LastAction { player_id: pid, action_type: "discarded".to_owned(), card: Some(card) },
        );
        let ghost m = *self;
        proof {
            broadcast use vstd::multiset::group_multiset_axioms;

            let p0 = g0.players@[idx as int];
            let p1 = self.players@[idx as int];
            assert(self.players@ == g0.players@.update(idx as int, p1));
            lemma_players_update(g0.players@, idx as int, p1);
            assert(p0.hand@.to_multiset() =~= p1.hand@.to_multiset().insert(card));
            assert(player_cards(p0) =~= player_cards(p1).insert(card));
            assert forall|v: Card| #[trigger] all_cards(*self).count(v) == all_cards(g0).count(v) by {
                let a = players_cards(self.players@).add(player_cards(p0));
                let b = players_cards(g0.players@).add(player_cards(p1));
                assert(a.count(v) == b.count(v));
            }
            assert(all_cards(*self) =~= all_cards(g0));
            assert(discarded(g0, m, card_index as int));
            lemma_players_same_melds(g0, m, idx as int);
        }
        if hand_is_empty {
            let result = self.end_round();
            return Ok(Some(result));
        }
        let next = (self.current_turn + 1) % self.players.len();
        self.current_turn = next;
        self.players[next].has_drawn_this_turn = false;
        self.players[next].dropped_hand_this_turn = false;
        proof {
            let h = *self;
            lemma_players_same_cards(m.players@, next as int, h.players@[next as int]);
            assert(h.players@ == m.players@.update(next as int, h.players@[next as int]));
            assert(turn_passed(m, h));
            lemma_players_same_melds(m, h, next as int);
        }
        Ok(None)
    }
}

/// Melds are untouched when only player `t`'s hand and flags change.
proof fn lemma_players_same_melds(a: GameState, b: GameState, t: int)
    requires
        a.players@.len() == b.players@.len(),
        0 <= t < a.players@.len(),
        forall|j: int| 0 <= j < a.players@.len() && j != t ==> #[trigger] b.players@[j] == a.players@[j],
        b.players@[t].dropped_combinations == a.players@[t].dropped_combinations,
    ensures
        melds_valid(a) ==> melds_valid(b),
{
    if melds_valid(a) {
        assert forall|i: int, k: int|
            0 <= i < b.players@.len() && 0 <= k < b.players@[i].dropped_combinations@.len() implies (
            is_trio(#[trigger] b.players@[i].dropped_combinations@[k]@) || is_escala(
                b.players@[i].dropped_combinations@[k]@,
            )) by {
            assert(b.players@[i].dropped_combinations == a.players@[i].dropped_combinations);
            assert(is_trio(a.players@[i].dropped_combinations@[k]@) || is_escala(a.players@[i].dropped_combinations@[k]@));
        }
    }
}

/// Seat `i` is the first whose player has id `id`.
pub open spec fn first_with_id(ps: Seq<PlayerState>, id: Seq<char>, i: int) -> bool {
    &&& 0 <= i < ps.len()
    &&& ps[i].id@ == id
    &&& forall|j: int| 0 <= j < i ==> (#[trigger] ps[j]).id@ != id
}

/// Some player has id `id`.
pub open spec fn has_id(ps: Seq<PlayerState>, id: Seq<char>) -> bool {
    exists|i: int| 0 <= i < ps.len() && (#[trigger] ps[i]).id@ == id
}

/// The first seat whose player has id `id` (meaningful when `has_id`).
pub open spec fn seat_of(ps: Seq<PlayerState>, id: Seq<char>) -> int {
    choose|i: int| first_with_id(ps, id, i)
}

pub proof fn lemma_first_unique(ps: Seq<PlayerState>, id: Seq<char>, i: int)
    requires
        first_with_id(ps, id, i),
    ensures
        seat_of(ps, id) == i,
        has_id(ps, id),
{
    let k = seat_of(ps, id);
    assert(first_with_id(ps, id, k));
    if k < i {
        assert(ps[k].id@ != id);
    }
    if i < k {
        assert(ps[i].id@ != id);
    }
}

/// Seat of the first player with id `id`, if any.
fn find_player(players: &Vec<PlayerState>, id: &str) -> (r: Option<usize>)
    ensures
        r matches Some(i) ==> first_with_id(players@, id@, i as int) && seat_of(players@, id@) == i,
        r is None <==> !has_id(players@, id@),
{
    let mut i: usize = 0;
    while i < players.len()
        invariant
            i <= players@.len(),
            forall|j: int| 0 <= j < i ==> (#[trigger] players@[j]).id@ != id@,
        decreases players@.len() - i,
    {
        if same_id(players[i].id.as_str(), id) {
            proof {
                lemma_first_unique(players@, id@, i as int);
            }
            return Some(i);
        }
        i = i + 1;
    }
    None
}

/// Position of the first `card` in `pool`, or `pool.len()` if none.
fn position_of(pool: &Vec<Card>, card: Card) -> (r: usize)
    ensures
        r <= pool@.len(),
        r < pool@.len() ==> pool@[r as int] == card,
        forall|x: int| 0 <= x < r ==> pool@[x] != card,
{
    let mut j: usize = 0;
    while j < pool.len()
        invariant
            j <= pool@.len(),
            forall|x: int| 0 <= x < j ==> pool@[x] != card,
        decreases pool@.len() - j,
    {
        if pool[j] == card {
            return j;
        }
        j = j + 1;
    }
    j
}

/// Removes from `pool` one copy of each card of `cards`, first occurrence
/// first. Fails, at the first card that is missing, unless `pool` holds all
/// of `cards` counting duplicates.
fn take_cards(pool: &mut Vec<Card>, cards: &[Card]) -> (r: bool)
    ensures
        r ==> final(pool)@.to_multiset().add(cards@.to_multiset()) == old(pool)@.to_multiset(),
        r <==> cards@.to_multiset().subset_of(old(pool)@.to_multiset()),
{
    broadcast use vstd::multiset::group_multiset_axioms;
    broadcast use vstd::seq_lib::lemma_multiset_commutative;

    let ghost orig = pool@;
    let mut k: usize = 0;
    while k < cards.len()
        invariant
            k <= cards@.len(),
            orig == old(pool)@,
            pool@.to_multiset().add(cards@.subrange(0, k as int).to_multiset()) == orig.to_multiset(),
        decreases cards@.len() - k,
    {
        let card = cards[k];
        let j = position_of(pool, card);
        proof {
            assert(cards@.subrange(0, k as int + 1) == cards@.subrange(0, k as int).push(card));
        }
        if j == pool.len() {
            proof {
                assert(!pool@.contains(card));
                assert(pool@.to_multiset().count(card) == 0);
                let pre = cards@.subrange(0, k as int);
                assert(orig.to_multiset().count(card) == pre.to_multiset().count(card));
                let a = cards@.subrange(0, k as int + 1);
                let b = cards@.subrange(k as int + 1, cards@.len() as int);
                assert(cards@ == a + b);
                vstd::seq_lib::lemma_multiset_commutative(a, b);
                assert(cards@.to_multiset().count(card) >= a.to_multiset().count(card));
                assert(a.to_multiset().count(card) == pre.to_multiset().count(card) + 1);
                assert(!cards@.to_multiset().subset_of(orig.to_multiset()));
            }
            return false;
        }
        let ghost before = pool@;
        pool.remove(j);
        proof {
            assert(before.remove(j as int).to_multiset() == before.to_multiset().remove(card));
            assert(pool@.to_multiset().add(cards@.subrange(0, k as int + 1).to_multiset()) =~= orig.to_multiset());
        }
        k = k + 1;
    }
    proof {
        assert(cards@.subrange(0, k as int) == cards@);
        assert(cards@.to_multiset().subset_of(orig.to_multiset()));
    }
    true
}

impl GameState {
    /// Replaces the hand of player `player_id` by `new_hand` when it holds
    /// exactly the same cards (counting duplicates) in another order.
    pub fn reorder_hand(&mut self, player_id: &str, new_hand: Vec<Card>) -> (r: Result<(), &'static str>)
        ensures
            reorder_hand_post(*old(self), *final(self), player_id@, new_hand@, r),
            all_cards(*final(self)) == all_cards(*old(self)),
            old(self).wf() ==> final(self).wf(),
            melds_valid(*old(self)) ==> melds_valid(*final(self)),
            points_monotone(*old(self), *final(self)),
    {
        let idx = match find_player(&self.players, player_id) {
            Some(i) => i,
            None => return Err("Player not found"),
        };
        if self.players[idx].hand.len() != new_hand.len() {
            return Err("New hand length does not match current hand length");
        }
        let mut pool = self.players[idx].hand.clone();
        proof {
            assert(pool@ =~= self.players@[idx as int].hand@);
        }
        let ghost hand0 = pool@;
        if !take_cards(&mut pool, new_hand.as_slice()) {
            return Err("New hand contains an unknown card or extra duplicate");
        }
        proof {
            broadcast use vstd::multiset::group_multiset_axioms;

            assert(pool@.to_multiset().len() == pool@.len());
            assert(new_hand@.to_multiset().len() == new_hand@.len());
            assert(hand0.to_multiset().len() == hand0.len());
            assert(pool@.to_multiset().add(new_hand@.to_multiset()).len() == pool@.to_multiset().len() + new_hand@.to_multiset().len());
            assert(pool@.to_multiset().len() == 0);
            assert(pool@.to_multiset() =~= Multiset::<Card>::empty());
            assert(new_hand@.to_multiset() =~= hand0.to_multiset());
        }
        let ghost g0 = *self;
        self.players[idx].hand = new_hand;
        proof {
            let p1 = self.players@[idx as int];
            assert(self.players@ == g0.players@.update(idx as int, p1));
            assert(player_cards(p1) == player_cards(g0.players@[idx as int]));
            lemma_players_same_cards(g0.players@, idx as int, p1);
            lemma_players_same_melds(g0, *self, idx as int);
        }
        Ok(())
    }
}

/// The cards of a sequence of melds, meld after meld.
pub open spec fn flat_cards(cs: Seq<Vec<Card>>) -> Seq<Card>
    decreases cs.len(),
{
    if cs.len() == 0 {
        Seq::empty()
    } else {
        flat_cards(cs.drop_last()) + cs.last()@
    }
}

/// Number of trios among the melds.
pub open spec fn trio_count(cs: Seq<Vec<Card>>) -> nat
    decreases cs.len(),
{
    if cs.len() == 0 {
        0
    } else {
        trio_count(cs.drop_last()) + if is_trio(cs.last()@) {
            1nat
        } else {
            0nat
        }
    }
}

/// Every meld is a trio or an escala.
pub open spec fn all_melds_ok(cs: Seq<Vec<Card>>) -> bool {
    forall|k: int| 0 <= k < cs.len() ==> is_trio(#[trigger] cs[k]@) || is_escala(cs[k]@)
}

proof fn lemma_melds_cards_flat(cs: Seq<Vec<Card>>)
    ensures
        melds_cards(cs) == flat_cards(cs).to_multiset(),
    decreases cs.len(),
{
    broadcast use vstd::multiset::group_multiset_axioms;

    if cs.len() == 0 {
        assert(flat_cards(cs).to_multiset() =~= Multiset::<Card>::empty());
    } else {
        lemma_melds_cards_flat(cs.drop_last());
        vstd::seq_lib::lemma_multiset_commutative(flat_cards(cs.drop_last()), cs.last()@);
    }
}

proof fn lemma_flat_prefix(cs: Seq<Vec<Card>>, n: int, v: Card)
    requires
        0 <= n <= cs.len(),
    ensures
        flat_cards(cs).to_multiset().count(v) >= flat_cards(cs.subrange(0, n)).to_multiset().count(v),
    decreases cs.len() - n,
{
    broadcast use vstd::multiset::group_multiset_axioms;

    if n == cs.len() {
        assert(cs.subrange(0, n) =~= cs);
    } else {
        lemma_flat_prefix(cs.drop_last(), n, v);
        assert(cs.drop_last().subrange(0, n) =~= cs.subrange(0, n));
        vstd::seq_lib::lemma_multiset_commutative(flat_cards(cs.drop_last()), cs.last()@);
    }
}

impl GameState {
    /// The current player `player_id` lays down their bajada: `combinations`
    /// must be cards of their hand (counting duplicates), each a trio or an
    /// escala, as many of each as the round requires. The cards leave the
    /// hand and become the player's melds, in the order given.
    pub fn drop_hand(&mut self, player_id: &str, combinations: Vec<Vec<Card>>) -> (r: Result<(), &'static str>)
        requires
            old(self).wf(),
        ensures
            drop_hand_post(*old(self), *final(self), player_id@, combinations@, r),
            all_cards(*final(self)) == all_cards(*old(self)),
            final(self).wf(),
            melds_valid(*old(self)) ==> melds_valid(*final(self)),
            points_monotone(*old(self), *final(self)),
            other_hands_unchanged(*old(self), *final(self), old(self).current_turn as int),
    {
        if self.is_game_over {
            return Err(ERR_GAME_OVER);
        }
        if self.is_waiting_for_next_round {
            return Err(ERR_WAITING);
        }
        let idx = self.current_turn;
        if idx >= self.players.len() {
            return Err(ERR_INVALID_TURN);
        }
        if !same_id(self.players[idx].id.as_str(), player_id) {
            return Err("Not your turn");
        }
        if !self.players[idx].has_drawn_this_turn {
            return Err("You must draw a card before trying to drop your hand");
        }
        if self.players[idx].has_dropped_hand {
            return Err("Hand already dropped");
        }
        // every card must be in the hand, counting duplicates
        let mut pool = self.players[idx].hand.clone();
        proof {
            assert(pool@ =~= self.players@[idx as int].hand@);
        }
        let ghost hand0 = pool@;
        let mut k: usize = 0;
        while k < combinations.len()
            invariant
                *self == *old(self),
                self.wf(),
                idx == self.current_turn,
                idx < self.players@.len(),
                self.players@[idx as int].id@ == player_id@,
                self.players@[idx as int].has_drawn_this_turn,
                !self.players@[idx as int].has_dropped_hand,
                !self.is_game_over,
                !self.is_waiting_for_next_round,
                k <= combinations@.len(),
                hand0 == self.players@[idx as int].hand@,
                pool@.to_multiset().add(flat_cards(combinations@.subrange(0, k as int)).to_multiset())
                    == hand0.to_multiset(),
            decreases combinations@.len() - k,
        {
            let ghost pool0 = pool@;
            let ok = take_cards(&mut pool, combinations[k].as_slice());
            proof {
                broadcast use vstd::multiset::group_multiset_axioms;

                let pre = combinations@.subrange(0, k as int);
                let post = combinations@.subrange(0, k as int + 1);
                assert(post.drop_last() =~= pre);
                vstd::seq_lib::lemma_multiset_commutative(flat_cards(pre), combinations@[k as int]@);
                if !ok {
                    let v = choose|v: Card| combinations@[k as int]@.to_multiset().count(v) > pool0.to_multiset().count(v);
                    lemma_flat_prefix(combinations@, k as int + 1, v);
                    assert(flat_cards(combinations@).to_multiset().count(v) > hand0.to_multiset().count(v));
                } else {
                    assert(pool@.to_multiset().add(flat_cards(post).to_multiset()) =~= hand0.to_multiset());
                }
            }
            if !ok {
                return Err("Combinations contain cards not in player's hand");
            }
            k = k + 1;
        }
        proof {
            broadcast use vstd::multiset::group_multiset_axioms;

            assert(combinations@.subrange(0, k as int) =~= combinations@);
            assert(flat_cards(combinations@).to_multiset().subset_of(hand0.to_multiset()));
        }
        // each group must be a trio or an escala, as many as the round asks
        let (req_trios, req_escalas) = self.current_round.get_requirements();
        let mut found_trios: usize = 0;
        let mut found_escalas: usize = 0;
        let mut k: usize = 0;
        while k < combinations.len()
            invariant
                *self == *old(self),
                self.wf(),
                idx == self.current_turn,
                idx < self.players@.len(),
                self.players@[idx as int].id@ == player_id@,
                self.players@[idx as int].has_drawn_this_turn,
                !self.players@[idx as int].has_dropped_hand,
                !self.is_game_over,
                !self.is_waiting_for_next_round,
                flat_cards(combinations@).to_multiset().subset_of(self.players@[idx as int].hand@.to_multiset()),
                pool@.to_multiset().add(flat_cards(combinations@).to_multiset())
                    == self.players@[idx as int].hand@.to_multiset(),
                (req_trios as int, req_escalas as int) == requirements(self.current_round),
                k <= combinations@.len(),
                found_trios == trio_count(combinations@.subrange(0, k as int)),
                found_trios + found_escalas == k,
                all_melds_ok(combinations@.subrange(0, k as int)),
            decreases combinations@.len() - k,
        {
            let combo = combinations[k].as_slice();
            proof {
                let post = combinations@.subrange(0, k as int + 1);
                assert(post.drop_last() =~= combinations@.subrange(0, k as int));
                assert(post.last() == combinations@[k as int]);
            }
            if combo.len() >= 3 && is_valid_trio(combo) {
                found_trios = found_trios + 1;
            } else if combo.len() >= 4 && is_valid_escala(combo) {
                found_escalas = found_escalas + 1;
            } else {
                proof {
                    assert(!(is_trio(combinations@[k as int]@) || is_escala(combinations@[k as int]@)));
                }
                return Err("Invalid combination: trios must be at least 3 cards, escalas at least 4");
            }
            proof {
                let post = combinations@.subrange(0, k as int + 1);
                assert forall|j: int| 0 <= j < post.len() implies is_trio(#[trigger] post[j]@) || is_escala(post[j]@) by {
                    if j < k {
                        assert(post[j] == combinations@.subrange(0, k as int)[j]);
                    }
                }
            }
            k = k + 1;
        }
        proof {
            assert(combinations@.subrange(0, k as int) =~= combinations@);
        }
        if found_trios != req_trios || found_escalas != req_escalas {
            return Err("Combinations do not match the current round requirements");
        }
        if self.current_round == RoundType::EscalaReal {
            proof {
                assert(requirements(self.current_round) == (0int, 1int));
            }
            if combinations[0].len() != 13 {
                return Err(ERR_ESCALA_REAL);
            }
        }
        let ghost g0 = *self;
        self.players[idx].hand = pool;
        self.players[idx].has_dropped_hand = true;
        self.players[idx].dropped_hand_this_turn = true;
        self.players[idx].dropped_combinations = combinations;
        proof {
            broadcast use vstd::multiset::group_multiset_axioms;

            let p0 = g0.players@[idx as int];
            let p1 = self.players@[idx as int];
            assert(self.players@ == g0.players@.update(idx as int, p1));
            lemma_melds_cards_flat(p1.dropped_combinations@);
            assert(p0.dropped_combinations@.len() == 0);
            assert(melds_cards(p0.dropped_combinations@) == Multiset::<Card>::empty());
            assert(player_cards(p1) =~= player_cards(p0));
            lemma_players_same_cards(g0.players@, idx as int, p1);
            assert forall|i: int| 0 <= i < self.players@.len() && !(#[trigger] self.players@[i]).has_dropped_hand
                implies self.players@[i].dropped_combinations@.len() == 0 by {
                if i != idx {
                    assert(self.players@[i] == g0.players@[i]);
                }
            }
            if melds_valid(g0) {
                assert forall|i: int, k: int|
                    0 <= i < self.players@.len() && 0 <= k < self.players@[i].dropped_combinations@.len() implies (
                    is_trio(#[trigger] self.players@[i].dropped_combinations@[k]@) || is_escala(
                        self.players@[i].dropped_combinations@[k]@,
                    )) by {
                    if i != idx {
                        assert(self.players@[i] == g0.players@[i]);
                    } else {
                        assert(is_trio(p1.dropped_combinations@[k]@) || is_escala(p1.dropped_combinations@[k]@));
                    }
                }
            }
        }
        let pid = self.players[idx].id.clone();
        self.last_action = Some(LastAction { player_id: pid, action_type: "bajó".to_owned(), card: None });
        Ok(())
    }
}

/// `h` is `g` after the current player sheds `hand[hci]` onto meld `ci` of
/// seat `tgt`: the card leaves the hand and joins the meld where
/// `shed_position` puts it; nothing else changes but the last action.
pub open spec fn shed_applied(g: GameState, h: GameState, hci: int, tgt: int, ci: int) -> bool {
    let t = g.current_turn as int;
    let card = g.players@[t].hand@[hci];
    let combo = g.players@[tgt].dropped_combinations@[ci]@;
    &&& h.players@.len() == g.players@.len()
    &&& forall|j: int|
        0 <= j < g.players@.len() ==> {
            let p = g.players@[j];
            let q = #[trigger] h.players@[j];
            &&& q.hand@ == if j == t { p.hand@.remove(hci) } else { p.hand@ }
            &&& q.dropped_combinations@.len() == p.dropped_combinations@.len()
            &&& forall|k: int|
                0 <= k < p.dropped_combinations@.len() ==> (#[trigger] q.dropped_combinations@[k])@
                    == if j == tgt && k == ci {
                    shed_onto(card, combo, shed_position(card, combo)->Some_0)
                } else {
                    p.dropped_combinations@[k]@
                }
            &&& q.id == p.id
            &&& q.points == p.points
            &&& q.has_dropped_hand == p.has_dropped_hand
            &&& q.turns_played == p.turns_played
            &&& q.has_drawn_this_turn == p.has_drawn_this_turn
            &&& q.dropped_hand_this_turn == p.dropped_hand_this_turn
            &&& q.is_ready_for_next_round == p.is_ready_for_next_round
        }
    &&& h.deck == g.deck
    &&& h.discard_pile == g.discard_pile
    &&& h.current_round == g.current_round
    &&& h.round_index == g.round_index
    &&& h.current_turn == g.current_turn
    &&& h.is_game_over == g.is_game_over
    &&& h.is_waiting_for_next_round == g.is_waiting_for_next_round
}

impl GameState {
    /// The current player `player_id`, after their bajada (on a later turn
    /// than it) and after drawing, sheds `hand[hand_card_index]` onto meld
    /// `target_combo_idx` of player `target_player_id`, who must have made
    /// their bajada too. Emptying the hand wins and ends the round.
    #[verifier::rlimit(40)]
    #[verifier::spinoff_prover]
    pub fn shed_card(
        &mut self,
        player_id: &str,
        hand_card_index: usize,
        target_player_id: &str,
        target_combo_idx: usize,
    ) -> (r: Result<Option<RoundEndResult>, &'static str>)
        requires
            old(self).wf(),
        ensures
            shed_card_post(*old(self), *final(self), player_id@, hand_card_index, target_player_id@, target_combo_idx, r),
            all_cards(*final(self)) == all_cards(*old(self)),
            final(self).wf(),
            melds_valid(*old(self)) ==> melds_valid(*final(self)),
            points_monotone(*old(self), *final(self)),
            other_hands_unchanged(*old(self), *final(self), old(self).current_turn as int),
    {
        if self.is_game_over {
            return Err(ERR_GAME_OVER);
        }
        if self.is_waiting_for_next_round {
            return Err(ERR_WAITING);
        }
        let idx = self.current_turn;
        if idx >= self.players.len() {
            return Err(ERR_INVALID_TURN);
        }
        if !same_id(self.players[idx].id.as_str(), player_id) {
            return Err("Not your turn");
        }
        if !self.players[idx].has_dropped_hand {
            return Err("You must drop your hand before shedding cards");
        }
        if self.players[idx].dropped_hand_this_turn {
            return Err("You cannot shed cards on the same turn you drop your hand");
        }
        if !self.players[idx].has_drawn_this_turn {
            return Err("You must draw a card before shedding cards");
        }
        if hand_card_index >= self.players[idx].hand.len() {
            return Err("Card index out of bounds");
        }
        let card = self.players[idx].hand[hand_card_index];
        let tpos = match find_player(&self.players, target_player_id) {
            Some(i) => i,
            None => return Err("Target player not found"),
        };
        if !self.players[tpos].has_dropped_hand {
            return Err("Target player has not dropped their hand yet");
        }
        if target_combo_idx >= self.players[tpos].dropped_combinations.len() {
            return Err("Target combo index out of bounds");
        }
        let position = match can_shed(&card, self.players[tpos].dropped_combinations[target_combo_idx].as_slice()) {
            Some(pos) => pos,
            None => return Err("This card cannot be shed onto that combo"),
        };
        let ghost g0 = *self;
        let ghost combo0 = g0.players@[tpos as int].dropped_combinations@[target_combo_idx as int];
        self.players[idx].hand.remove(hand_card_index);
        let ghost g1 = *self;
        match position {
            ShedPosition::ExtendLeft => {
                self.players[tpos].dropped_combinations[target_combo_idx].insert(0, card);
            },
            _ => {
                self.players[tpos].dropped_combinations[target_combo_idx].push(card);
            },
        }
        proof {
            broadcast use vstd::multiset::group_multiset_axioms;

            // the card leaves the hand of `idx`
            let p0 = g0.players@[idx as int];
            let p1 = g1.players@[idx as int];
            assert(g1.players@ == g0.players@.update(idx as int, p1));
            lemma_players_update(g0.players@, idx as int, p1);
            assert(p0.hand@.to_multiset() =~= p1.hand@.to_multiset().insert(card));
            assert(player_cards(p0) =~= player_cards(p1).insert(card));
            // and joins meld `target_combo_idx` of `tpos`
            let q1 = g1.players@[tpos as int];
            let q2 = self.players@[tpos as int];
            let m1 = q1.dropped_combinations@;
            let m2 = q2.dropped_combinations@;
            let new_combo = m2[target_combo_idx as int];
            assert(m1[target_combo_idx as int] == combo0);
            assert(m2 == m1.update(target_combo_idx as int, new_combo));
            assert(new_combo@ == shed_onto(card, combo0@, position));
            if position == ShedPosition::ExtendLeft {
                assert(new_combo@ == combo0@.insert(0, card));
            }
            assert(new_combo@.to_multiset() =~= combo0@.to_multiset().insert(card));
            lemma_melds_update(m1, target_combo_idx as int, new_combo);
            assert(melds_cards(m2).add(combo0@.to_multiset()) == melds_cards(m1).add(new_combo@.to_multiset()));
            assert forall|v: Card| #[trigger] melds_cards(m2).count(v) == melds_cards(m1).insert(card).count(v) by {
                assert(melds_cards(m2).add(combo0@.to_multiset()).count(v) == melds_cards(m1).add(new_combo@.to_multiset()).count(v));
            }
            assert(melds_cards(m2) =~= melds_cards(m1).insert(card));
            assert(q2.hand == q1.hand);
            assert(player_cards(q2) =~= player_cards(q1).insert(card));
            assert(self.players@ == g1.players@.update(tpos as int, q2));
            lemma_players_update(g1.players@, tpos as int, q2);
            assert forall|v: Card| #[trigger] all_cards(*self).count(v) == all_cards(g0).count(v) by {
                let a = players_cards(g1.players@).add(player_cards(p0));
                let b = players_cards(g0.players@).add(player_cards(p1));
                assert(a.count(v) == b.count(v));
                let c = players_cards(self.players@).add(player_cards(q1));
                let d = players_cards(g1.players@).add(player_cards(q2));
                assert(c.count(v) == d.count(v));
            }
            assert(all_cards(*self) =~= all_cards(g0));
            lemma_first_unique(g0.players@, target_player_id@, tpos as int);
            assert forall|i: int| 0 <= i < self.players@.len() && !(#[trigger] self.players@[i]).has_dropped_hand
                implies self.players@[i].dropped_combinations@.len() == 0 by {
                assert(g0.players@[i].has_dropped_hand == self.players@[i].has_dropped_hand);
                assert(g0.players@[i].dropped_combinations@.len() == self.players@[i].dropped_combinations@.len());
            }
            if melds_valid(g0) {
                crate::combo_finder::lemma_shed_keeps_meld_valid(card, combo0@);
                assert forall|i: int, k: int|
                    0 <= i < self.players@.len() && 0 <= k < self.players@[i].dropped_combinations@.len() implies (
                    is_trio(#[trigger] self.players@[i].dropped_combinations@[k]@) || is_escala(
                        self.players@[i].dropped_combinations@[k]@,
                    )) by {
                    if i == tpos && k == target_combo_idx {
                    } else {
                        assert(self.players@[i].dropped_combinations@[k]@ == g0.players@[i].dropped_combinations@[k]@);
                        assert(is_trio(g0.players@[i].dropped_combinations@[k]@) || is_escala(g0.players@[i].dropped_combinations@[k]@));
                    }
                }
            }
            assert(shed_applied(g0, *self, hand_card_index as int, tpos as int, target_combo_idx as int));
        }
        let pid = self.players[idx].id.clone();
        self.last_action = Some(LastAction { player_id: pid, action_type: "shed".to_owned(), card: Some(card) });
        if self.players[idx].hand.len() == 0 {
            let result = self.end_round();
            return Ok(Some(result));
        }
        Ok(None)
    }
}

/// Every player is ready for the next round.
pub open spec fn all_ready(ps: Seq<PlayerState>) -> bool {
    forall|j: int| 0 <= j < ps.len() ==> (#[trigger] ps[j]).is_ready_for_next_round
}

fn everyone_ready(players: &Vec<PlayerState>) -> (r: bool)
    ensures
        r == all_ready(players@),
{
    let mut i: usize = 0;
    while i < players.len()
        invariant
            i <= players@.len(),
            forall|j: int| 0 <= j < i ==> (#[trigger] players@[j]).is_ready_for_next_round,
        decreases players@.len() - i,
    {
        if !players[i].is_ready_for_next_round {
            return false;
        }
        i = i + 1;
    }
    true
}

impl GameState {
    /// Player `player_id` is ready for the next round; once every player
    /// is, the game stops waiting and the next round starts.
    pub fn mark_player_ready(&mut self, player_id: &str) -> (r: Result<(), &'static str>)
        requires
            old(self).wf(),
        ensures
            mark_player_ready_post(*old(self), *final(self), player_id@, r),
            final(self).wf(),
            cards_conserved(*old(self)) ==> cards_conserved(*final(self)),
            melds_valid(*old(self)) ==> melds_valid(*final(self)),
            points_monotone(*old(self), *final(self)),
    {
        if !self.is_waiting_for_next_round {
            return Err("Game is not waiting for next round");
        }
        let idx = match find_player(&self.players, player_id) {
            Some(i) => i,
            None => return Err("Player not found"),
        };
        let ghost g0 = *self;
        self.players[idx].is_ready_for_next_round = true;
        proof {
            let p1 = self.players@[idx as int];
            assert(self.players@ == g0.players@.update(idx as int, p1));
            lemma_players_same_cards(g0.players@, idx as int, p1);
            lemma_players_same_melds(g0, *self, idx as int);
            assert forall|i: int| 0 <= i < self.players@.len() && !(#[trigger] self.players@[i]).has_dropped_hand
                implies self.players@[i].dropped_combinations@.len() == 0 by {
                assert(g0.players@[i].has_dropped_hand == self.players@[i].has_dropped_hand);
            }
        }
        if everyone_ready(&self.players) {
            proof {
                assert forall|j: int| 0 <= j < g0.players@.len() && j != idx implies (#[trigger] g0.players@[j]).is_ready_for_next_round by {
                    assert(self.players@[j] == g0.players@[j]);
                }
            }
            self.is_waiting_for_next_round = false;
            self.start_round();
        } else {
            proof {
                let others_ready = forall|j: int| 0 <= j < g0.players@.len() && j != idx ==> (#[trigger] g0.players@[j]).is_ready_for_next_round;
                if others_ready {
                    assert(all_ready(self.players@)) by {
                        assert forall|j: int| 0 <= j < self.players@.len() implies (#[trigger] self.players@[j]).is_ready_for_next_round by {
                            if j != idx {
                                assert(self.players@[j] == g0.players@[j]);
                            }
                        }
                    }
                }
            }
        }
        proof {
            lemma_first_unique(g0.players@, player_id@, idx as int);
        }
        Ok(())
    }
}

} // verus!
