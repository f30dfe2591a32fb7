use rand::RngExt;
use vstd::prelude::*;

use crate::card::{card_points, card_rank, card_suit, Card};
use crate::combo_finder::{
    can_shed, find_best_bajada, is_bajada, meld_cards, shaped_bajada, shed_position, MeldCandidate,
    MeldType,
    MAX_FINDER_HAND,
};
use crate::events::{ClientMessage, DiscardPayload, DropHandPayload};
use crate::game::{all_melds_ok, drop_hand_post, flat_cards, requirements, trio_count, GameState, PlayerState, RoundType};
use crate::combo_finder::{all_positions, lemma_all_positions, lemma_joker_count_prefix};
use crate::rules::{is_escala, is_trio, joker_count};
use crate::ids::same_id;
use crate::points::MAX_SCORED_HAND;

verus! {

/// How well a bot seat plays.
#[derive(Debug, Clone, Copy, PartialEq, Eq, Structural)]
pub enum BotDifficulty {
    Easy,
    Medium,
    Hard,
}

/// Where a bot seat stands in its turn.
#[derive(Debug, Clone, Copy, PartialEq, Eq, Structural)]
pub enum BotTurnPhase {
    /// Nothing drawn yet this turn.
    NeedDraw,
    /// Drawn, no bajada yet: make the bajada or discard.
    AfterDraw,
    /// Drawn, with the bajada down: discard to end the turn.
    AfterBajada,
}

/// Relies on rand's `random_range` over `0..n`, which returns a value of
/// that range (it panics only on an empty range).
#[verifier::external_body]
fn random_below(n: usize) -> (r: usize)
    requires
        n > 0,
    ensures
        r < n,
{
    rand::rng().random_range(0..n)
}

/// What `c` adds to the usefulness of `target` (a standard card): 15 for
/// the same rank, 10 for the same suit one rank away, 5 two ranks away.
pub open spec fn synergy_with(c: Card, target: Card) -> int {
    if c is Standard {
        (if card_rank(c) == card_rank(target) {
            15int
        } else {
            0int
        }) + if card_suit(c) == card_suit(target) && (card_rank(c) - card_rank(target) == 1
            || card_rank(target) - card_rank(c) == 1) {
            10int
        } else if card_suit(c) == card_suit(target) && (card_rank(c) - card_rank(target) == 2
            || card_rank(target) - card_rank(c) == 2) {
            5int
        } else {
            0int
        }
    } else {
        0
    }
}

pub open spec fn synergy_sum(hand: Seq<Card>, target: Card) -> int
    decreases hand.len(),
{
    if hand.len() == 0 {
        0
    } else {
        synergy_sum(hand.drop_last(), target) + synergy_with(hand.last(), target)
    }
}

/// How useful `target` is given the rest of a hand (higher: keep it). A
/// joker always scores 100.
pub open spec fn synergy(hand: Seq<Card>, target: Card) -> int {
    if target is Joker {
        100
    } else {
        synergy_sum(hand, target)
    }
}

/// Synergy of `hand[i]` with the rest of the hand.
pub open spec fn keep_score(hand: Seq<Card>, i: int) -> int {
    synergy(hand.remove(i), hand[i])
}

/// Number of melds among `cs` that `card` could be shed onto.
pub open spec fn melds_accepting(card: Card, cs: Seq<Vec<Card>>) -> int
    decreases cs.len(),
{
    if cs.len() == 0 {
        0
    } else {
        melds_accepting(card, cs.drop_last()) + if shed_position(card, cs.last()@) is Some {
            1int
        } else {
            0int
        }
    }
}

/// Number of melds of other players (with a bajada) that `card` would extend.
pub open spec fn opponent_melds_accepting(card: Card, ps: Seq<PlayerState>, my_id: Seq<char>) -> int
    decreases ps.len(),
{
    if ps.len() == 0 {
        0
    } else {
        let p = ps.last();
        opponent_melds_accepting(card, ps.drop_last(), my_id) + if p.id@ == my_id
            || !p.has_dropped_hand {
            0
        } else {
            melds_accepting(card, p.dropped_combinations@)
        }
    }
}

/// The Hard bot's cost of discarding `hand[i]`, in tenths: its synergy,
/// less a tenth of its points, plus 10 for each opponent meld it extends.
pub open spec fn hard_discard_cost(g: GameState, my_id: Seq<char>, hand: Seq<Card>, i: int) -> int {
    10 * keep_score(hand, i) - card_points(hand[i]) + 100 * opponent_melds_accepting(
        hand[i],
        g.players@,
        my_id,
    )
}

/// `r` is the first position of `hand` where `cost` is smallest.
pub open spec fn first_min(hand: Seq<Card>, cost: spec_fn(int) -> int, r: int) -> bool {
    &&& 0 <= r < hand.len()
    &&& forall|j: int| 0 <= j < hand.len() ==> cost(r) <= #[trigger] cost(j)
    &&& forall|j: int| 0 <= j < r ==> cost(r) < #[trigger] cost(j)
}

/// Classifies the turn phase of `player` by the turn's state machine: no
/// card drawn yet, drawn and no bajada yet, or drawn with the bajada down.
pub fn detect_phase(player: &PlayerState) -> (r: BotTurnPhase)
    ensures
        !player.has_drawn_this_turn ==> r == BotTurnPhase::NeedDraw,
        player.has_drawn_this_turn && player.has_dropped_hand ==> r == BotTurnPhase::AfterBajada,
        player.has_drawn_this_turn && !player.has_dropped_hand ==> r == BotTurnPhase::AfterDraw,
{
    if !player.has_drawn_this_turn {
        BotTurnPhase::NeedDraw
    } else if player.has_dropped_hand {
        BotTurnPhase::AfterBajada
    } else {
        BotTurnPhase::AfterDraw
    }
}

/// How useful `target` is given `hand` (higher: more worth keeping).
fn card_synergy_score(hand: &[Card], target: &Card) -> (r: u32)
    requires
        hand@.len() <= MAX_SCORED_HAND,
    ensures
        r as int == synergy(hand@, *target),
{
    let t = *target;
    match t {
        Card::Joker => 100,
        Card::Standard { suit: ts, value: tv } => {
            let tr = tv.rank();
            let mut score: u32 = 0;
            let mut i: usize = 0;
            while i < hand.len()
                invariant
                    i <= hand@.len() <= MAX_SCORED_HAND,
                    t == *target,
                    t == (Card::Standard { suit: ts, value: tv }),
                    tr as int == card_rank(t),
                    score as int == synergy_sum(hand@.subrange(0, i as int), t),
                    score <= 15 * i,
                decreases hand@.len() - i,
            {
                proof {
                    assert(hand@.subrange(0, i as int + 1).drop_last() =~= hand@.subrange(0, i as int));
                }
                if let Card::Standard { suit, value } = hand[i] {
                    let r = value.rank();
                    if r == tr {
                        score = score + 15;
                    }
                    if suit == ts {
                        if r == tr + 1 || tr == r + 1 {
                            score = score + 10;
                        } else if r == tr + 2 || tr == r + 2 {
                            score = score + 5;
                        }
                    }
                }
                i = i + 1;
            }
            proof {
                assert(hand@.subrange(0, i as int) =~= hand@);
            }
            score
        },
    }
}

/// `hand` without position `i`.
fn without(hand: &[Card], i: usize) -> (r: Vec<Card>)
    requires
        i < hand@.len(),
    ensures
        r@ == hand@.remove(i as int),
{
    let mut r: Vec<Card> = Vec::new();
    let mut k: usize = 0;
    while k < hand.len()
        invariant
            i < hand@.len(),
            k <= hand@.len(),
            r@ == if k <= i {
                hand@.subrange(0, k as int)
            } else {
                hand@.subrange(0, i as int) + hand@.subrange(i + 1, k as int)
            },
        decreases hand@.len() - k,
    {
        if k != i {
            r.push(hand[k]);
            proof {
                if k < i {
                    assert(r@ =~= hand@.subrange(0, k as int + 1));
                } else {
                    assert(r@ =~= hand@.subrange(0, i as int) + hand@.subrange(i + 1, k as int + 1));
                }
            }
        } else {
            proof {
                assert(hand@.subrange(0, k as int) + hand@.subrange(i + 1, k as int + 1) =~= hand@.subrange(0, k as int));
            }
        }
        k = k + 1;
    }
    proof {
        assert(r@ =~= hand@.remove(i as int));
    }
    r
}

/// Most seats a room has.
pub const MAX_SEATS: usize = 4;

/// Position of the card whose synergy with the rest of the hand is lowest
/// (the first such); 0 for an empty hand.
fn find_lowest_synergy_index(hand: &[Card]) -> (r: usize)
    requires
        hand@.len() <= MAX_SCORED_HAND,
    ensures
        hand@.len() == 0 ==> r == 0,
        hand@.len() > 0 ==> first_min(hand@, |j: int| keep_score(hand@, j), r as int),
{
    let mut best_index: usize = 0;
    let mut min_score: i64 = i64::MAX;
    let mut i: usize = 0;
    while i < hand.len()
        invariant
            i <= hand@.len() <= MAX_SCORED_HAND,
            i == 0 ==> min_score == i64::MAX && best_index == 0,
            i > 0 ==> best_index < i && min_score as int == keep_score(hand@, best_index as int),
            forall|j: int| 0 <= j < i ==> min_score <= #[trigger] keep_score(hand@, j),
            forall|j: int| 0 <= j < best_index ==> min_score < #[trigger] keep_score(hand@, j),
        decreases hand@.len() - i,
    {
        let rest = without(hand, i);
        let synergy = card_synergy_score(rest.as_slice(), &hand[i]) as i64;
        if synergy < min_score {
            min_score = synergy;
            best_index = i;
        }
        i = i + 1;
    }
    best_index
}

/// Number of melds of other players (with a bajada) that `card` would extend.
fn defensive_penalty(card: &Card, game: &GameState, my_id: &str) -> (r: u128)
    requires
        game.players@.len() <= MAX_SEATS,
    ensures
        r as int == opponent_melds_accepting(*card, game.players@, my_id@),
        r <= 4 * 0x1_0000_0000_0000_0000,
{
    let mut penalty: u128 = 0;
    let mut i: usize = 0;
    while i < game.players.len()
        invariant
            i <= game.players@.len() <= MAX_SEATS,
            penalty as int == opponent_melds_accepting(*card, game.players@.subrange(0, i as int), my_id@),
            penalty <= i * 0x1_0000_0000_0000_0000,
        decreases game.players@.len() - i,
    {
        let player = &game.players[i];
        proof {
            assert(game.players@.subrange(0, i as int + 1).drop_last() =~= game.players@.subrange(0, i as int));
        }
        if !same_id(player.id.as_str(), my_id) && player.has_dropped_hand {
            let mut k: usize = 0;
            let ghost base = penalty;
            while k < player.dropped_combinations.len()
                invariant
                    i < game.players@.len() <= MAX_SEATS,
                    *player == game.players@[i as int],
                    k <= player.dropped_combinations@.len(),
                    penalty as int == base + melds_accepting(*card, player.dropped_combinations@.subrange(0, k as int)),
                    base <= i * 0x1_0000_0000_0000_0000,
                    penalty <= base + k,
                decreases player.dropped_combinations@.len() - k,
            {
                proof {
                    assert(player.dropped_combinations@.subrange(0, k as int + 1).drop_last()
                        =~= player.dropped_combinations@.subrange(0, k as int));
                }
                if can_shed(card, player.dropped_combinations[k].as_slice()).is_some() {
                    penalty = penalty + 1;
                }
                k = k + 1;
            }
            proof {
                assert(player.dropped_combinations@.subrange(0, k as int) =~= player.dropped_combinations@);
            }
        }
        i = i + 1;
    }
    proof {
        assert(game.players@.subrange(0, i as int) =~= game.players@);
    }
    penalty
}

/// Position of the card cheapest to discard for the Hard bot: low synergy,
/// high points, and not extending an opponent's meld (the first such).
fn find_best_discard_index_hard(game: &GameState, player: &PlayerState) -> (r: usize)
    requires
        player.hand@.len() <= MAX_SCORED_HAND,
        game.players@.len() <= MAX_SEATS,
    ensures
        player.hand@.len() == 0 ==> r == 0,
        player.hand@.len() > 0 ==> first_min(
            player.hand@,
            |j: int| hard_discard_cost(*game, player.id@, player.hand@, j),
            r as int,
        ),
{
    let hand = player.hand.as_slice();
    let mut best_index: usize = 0;
    let mut lowest: i128 = i128::MAX;
    let mut i: usize = 0;
    while i < hand.len()
        invariant
            hand@ == player.hand@,
            i <= hand@.len() <= MAX_SCORED_HAND,
            game.players@.len() <= MAX_SEATS,
            i == 0 ==> lowest == i128::MAX && best_index == 0,
            i > 0 ==> best_index < i && lowest as int == hard_discard_cost(*game, player.id@, hand@, best_index as int),
            forall|j: int| 0 <= j < i ==> lowest <= #[trigger] hard_discard_cost(*game, player.id@, hand@, j),
            forall|j: int| 0 <= j < best_index ==> lowest < #[trigger] hard_discard_cost(*game, player.id@, hand@, j),
        decreases hand@.len() - i,
    {
        let rest = without(hand, i);
        let card = hand[i];
        let synergy = card_synergy_score(rest.as_slice(), &card);
        let points = card.points();
        let defense = defensive_penalty(&card, game, player.id.as_str());
        // costs in tenths: synergy - points / 10 + 10 per opponent meld
        let total = 10 * (synergy as i128) - (points as i128) + 100 * (defense as i128);
        if total < lowest {
            lowest = total;
            best_index = i;
        }
        i = i + 1;
    }
    best_index
}

/// The discard position a bot of `difficulty` may choose for `player`:
/// any card for Easy, the lowest-synergy card for Medium, the cheapest by
/// the Hard cost for Hard; 0 for an empty hand.
pub open spec fn discard_choice_ok(game: GameState, player: PlayerState, difficulty: BotDifficulty, k: int) -> bool {
    let hand = player.hand@;
    if hand.len() == 0 {
        k == 0
    } else {
        match difficulty {
            BotDifficulty::Easy => 0 <= k < hand.len(),
            BotDifficulty::Medium => first_min(hand, |j: int| keep_score(hand, j), k),
            BotDifficulty::Hard => first_min(hand, |j: int| hard_discard_cost(game, player.id@, hand, j), k),
        }
    }
}

fn decide_discard(game: &GameState, player: &PlayerState, difficulty: BotDifficulty) -> (r: ClientMessage)
    requires
        player.hand@.len() <= MAX_SCORED_HAND,
        game.players@.len() <= MAX_SEATS,
    ensures
        r matches ClientMessage::Discard { payload } && discard_choice_ok(*game, *player, difficulty, payload.card_index as int),
{
    if player.hand.len() == 0 {
        return ClientMessage::Discard { payload: DiscardPayload { card_index: 0 } };
    }
    let best_index = match difficulty {
        BotDifficulty::Easy => random_below(player.hand.len()),
        BotDifficulty::Medium => find_lowest_synergy_index(player.hand.as_slice()),
        BotDifficulty::Hard => find_best_discard_index_hard(game, player),
    };
    ClientMessage::Discard { payload: DiscardPayload { card_index: best_index } }
}

/// Synergy needed for a Medium or Hard bot to take the discard pile's top card.
pub const DRAW_SYNERGY: u32 = 15;

fn decide_draw(game: &GameState, player: &PlayerState, difficulty: BotDifficulty) -> (r: Option<ClientMessage>)
    requires
        player.hand@.len() <= MAX_SCORED_HAND,
    ensures
        (r matches Some(ClientMessage::DrawFromDeck)) || (r matches Some(ClientMessage::DrawFromDiscard)),
        game.discard_pile@.len() == 0 ==> (r matches Some(ClientMessage::DrawFromDeck)),
        game.discard_pile@.len() > 0 && difficulty != BotDifficulty::Easy ==> ((r matches Some(
            ClientMessage::DrawFromDiscard,
        )) <==> synergy(player.hand@, game.discard_pile@.last()) >= DRAW_SYNERGY),
{
    if game.discard_pile.len() == 0 {
        return Some(ClientMessage::DrawFromDeck);
    }
    let top = game.discard_pile[game.discard_pile.len() - 1];
    let should_draw_discard = match difficulty {
        // three times in ten
        BotDifficulty::Easy => random_below(10) < 3,
        BotDifficulty::Medium => card_synergy_score(player.hand.as_slice(), &top) >= DRAW_SYNERGY,
        BotDifficulty::Hard => card_synergy_score(player.hand.as_slice(), &top) >= DRAW_SYNERGY,
    };
    if should_draw_discard {
        Some(ClientMessage::DrawFromDiscard)
    } else {
        Some(ClientMessage::DrawFromDeck)
    }
}

/// The melds of `sol` as the cards of `hand` they stand for.
fn candidate_cards(hand: &[Card], sol: &Vec<MeldCandidate>) -> (r: Vec<Vec<Card>>)
    requires
        forall|k: int| 0 <= k < sol@.len() ==> forall|j: int| 0 <= j < (#[trigger] sol@[k]).card_indices@.len() ==> (#[trigger] sol@[k].card_indices@[j]) < hand@.len(),
    ensures
        r@.len() == sol@.len(),
        forall|k: int| 0 <= k < sol@.len() ==> (#[trigger] r@[k])@ == meld_cards(hand@, sol@[k].card_indices@),
{
    let mut r: Vec<Vec<Card>> = Vec::new();
    let mut k: usize = 0;
    while k < sol.len()
        invariant
            k <= sol@.len(),
            r@.len() == k,
            forall|k: int| 0 <= k < sol@.len() ==> forall|j: int| 0 <= j < (#[trigger] sol@[k]).card_indices@.len() ==> (#[trigger] sol@[k].card_indices@[j]) < hand@.len(),
            forall|x: int| 0 <= x < k ==> (#[trigger] r@[x])@ == meld_cards(hand@, sol@[x].card_indices@),
        decreases sol@.len() - k,
    {
        let idx = &sol[k].card_indices;
        let mut m: Vec<Card> = Vec::new();
        let mut i: usize = 0;
        while i < idx.len()
            invariant
                k < sol@.len(),
                *idx == sol@[k as int].card_indices,
                forall|j: int| 0 <= j < idx@.len() ==> (#[trigger] idx@[j]) < hand@.len(),
                i <= idx@.len(),
                m@ == meld_cards(hand@, idx@.subrange(0, i as int)),
            decreases idx@.len() - i,
        {
            m.push(hand[idx[i]]);
            proof {
                assert(m@ =~= meld_cards(hand@, idx@.subrange(0, i as int + 1)));
            }
            i = i + 1;
        }
        proof {
            assert(idx@.subrange(0, i as int) =~= idx@);
        }
        r.push(m);
        k = k + 1;
    }
    r
}

/// `hand` holds a bajada for the requirement made of melds of the shapes
/// the meld enumeration yields.
pub open spec fn has_shaped_bajada(hand: Seq<Card>, req: (int, int)) -> bool {
    exists|sol: Seq<MeldCandidate>| #[trigger] shaped_bajada(hand, sol, req.0, req.1)
}

/// The bajada message a bot sends when `cs` stands for a bajada of `hand`.
pub open spec fn bajada_message(hand: Seq<Card>, cs: Seq<Vec<Card>>, req: (int, int)) -> bool {
    exists|sol: Seq<MeldCandidate>|
        #[trigger] is_bajada(hand, sol, req.0, req.1) && cs.len() == sol.len() && forall|k: int|
            0 <= k < sol.len() ==> (#[trigger] cs[k])@ == meld_cards(hand, sol[k].card_indices@)
}

proof fn lemma_escala_not_trio(s: Seq<Card>)
    requires
        is_escala(s),
    ensures
        !is_trio(s),
{
    // at most one of the first three cards is a joker
    let p3 = s.subrange(0, 3);
    assert(p3.drop_last() =~= s.subrange(0, 2));
    assert(s.subrange(0, 2).drop_last() =~= s.subrange(0, 1));
    assert(s.subrange(0, 1).drop_last() =~= s.subrange(0, 0));
    assert(p3.last() == s[2] && s.subrange(0, 2).last() == s[1] && s.subrange(0, 1).last() == s[0]);
    assert(joker_count(s.subrange(0, 0)) == 0);
    assert(joker_count(s.subrange(0, 1)) == joker_count(s.subrange(0, 0)) + if s[0] is Joker { 1nat } else { 0nat });
    assert(joker_count(s.subrange(0, 2)) == joker_count(s.subrange(0, 1)) + if s[1] is Joker { 1nat } else { 0nat });
    assert(joker_count(p3) == joker_count(s.subrange(0, 2)) + if s[2] is Joker { 1nat } else { 0nat });
    lemma_joker_count_prefix(s, 3);
    assert(joker_count(p3) <= 1);
    // so two of them are standard cards of different ranks
    if s[0] is Standard && s[1] is Standard {
        assert(card_rank(s[1]) - card_rank(s[0]) == 1);
    } else if s[0] is Standard && s[2] is Standard {
        assert(card_rank(s[2]) - card_rank(s[0]) == 2);
    } else {
        assert(s[1] is Standard && s[2] is Standard);
        assert(card_rank(s[2]) - card_rank(s[1]) == 1);
    }
}

proof fn lemma_trio_count_split(cs: Seq<Vec<Card>>, rt: int)
    requires
        0 <= rt <= cs.len(),
        forall|k: int| 0 <= k < rt ==> is_trio((#[trigger] cs[k])@),
        forall|k: int| rt <= k < cs.len() ==> !is_trio((#[trigger] cs[k])@),
    ensures
        trio_count(cs) == rt,
    decreases cs.len(),
{
    if cs.len() > 0 {
        let pre = cs.drop_last();
        if rt == cs.len() {
            assert(is_trio(cs[cs.len() - 1]@));
            assert forall|k: int| 0 <= k < rt - 1 implies is_trio((#[trigger] pre[k])@) by {
                assert(pre[k] == cs[k]);
            }
            lemma_trio_count_split(pre, rt - 1);
        } else {
            assert(!is_trio(cs[cs.len() - 1]@));
            assert forall|k: int| 0 <= k < rt implies is_trio((#[trigger] pre[k])@) by {
                assert(pre[k] == cs[k]);
            }
            assert forall|k: int| rt <= k < pre.len() implies !is_trio((#[trigger] pre[k])@) by {
                assert(pre[k] == cs[k]);
            }
            lemma_trio_count_split(pre, rt);
        }
    }
}

/// The cards at distinct positions of `hand` are cards of `hand`, counting
/// duplicates.
proof fn lemma_distinct_positions_in_hand(hand: Seq<Card>, v: Seq<usize>)
    requires
        hand.len() <= usize::MAX,
        v.no_duplicates(),
        forall|j: int| 0 <= j < v.len() ==> #[trigger] v[j] < hand.len(),
    ensures
        meld_cards(hand, v).to_multiset().subset_of(hand.to_multiset()),
    decreases hand.len(),
{
    broadcast use vstd::multiset::group_multiset_axioms;
    broadcast use vstd::seq_lib::group_to_multiset_ensures;

    if hand.len() == 0 {
        if v.len() > 0 {
            assert(v[0] < hand.len());
        }
        assert(meld_cards(hand, v) =~= Seq::<Card>::empty());
    } else {
        let n = (hand.len() - 1) as usize;
        let pre = hand.drop_last();
        assert(hand =~= pre.push(hand.last()));
        if v.contains(n) {
            let w = choose|w: int| 0 <= w < v.len() && v[w] == n;
            let v2 = v.remove(w);
            assert forall|j: int| 0 <= j < v2.len() implies #[trigger] v2[j] < pre.len() by {
                if j < w {
                    assert(v2[j] == v[j]);
                } else {
                    assert(v2[j] == v[j + 1]);
                }
            }
            assert(v2.no_duplicates()) by {
                assert forall|a: int, b: int| 0 <= a < v2.len() && 0 <= b < v2.len() && a != b implies v2[a] != v2[b] by {
                    let a2 = if a < w { a } else { a + 1 };
                    let b2 = if b < w { b } else { b + 1 };
                    assert(v2[a] == v[a2] && v2[b] == v[b2]);
                }
            }
            lemma_distinct_positions_in_hand(pre, v2);
            assert(meld_cards(hand, v2) =~= meld_cards(pre, v2)) by {
                assert forall|j: int| 0 <= j < v2.len() implies meld_cards(hand, v2)[j] == meld_cards(pre, v2)[j] by {
                    assert(v2[j] < pre.len());
                }
            }
            let m = meld_cards(hand, v);
            assert(m.remove(w) =~= meld_cards(hand, v2));
            assert(m[w] == hand.last());
            assert(m.remove(w).to_multiset() == m.to_multiset().remove(m[w]));
            assert(m.to_multiset().count(hand.last()) > 0) by {
                assert(m.contains(m[w]));
            }
            assert(hand.to_multiset() == pre.to_multiset().insert(hand.last()));
            assert forall|x: Card| m.to_multiset().count(x) <= hand.to_multiset().count(x) by {
                assert(meld_cards(pre, v2).to_multiset().count(x) <= pre.to_multiset().count(x));
            }
        } else {
            assert forall|j: int| 0 <= j < v.len() implies #[trigger] v[j] < pre.len() by {
                assert(v[j] != n);
            }
            lemma_distinct_positions_in_hand(pre, v);
            assert(meld_cards(hand, v) =~= meld_cards(pre, v)) by {
                assert forall|j: int| 0 <= j < v.len() implies meld_cards(hand, v)[j] == meld_cards(pre, v)[j] by {
                    assert(v[j] < pre.len());
                }
            }
            assert(hand.to_multiset() == pre.to_multiset().insert(hand.last()));
            assert forall|x: Card| meld_cards(hand, v).to_multiset().count(x) <= hand.to_multiset().count(x) by {
                assert(meld_cards(pre, v).to_multiset().count(x) <= pre.to_multiset().count(x));
            }
        }
    }
}

proof fn lemma_flat_is_positions(hand: Seq<Card>, cs: Seq<Vec<Card>>, sol: Seq<MeldCandidate>, hi: int)
    requires
        0 <= hi <= cs.len() == sol.len(),
        forall|k: int| 0 <= k < sol.len() ==> (#[trigger] cs[k])@ == meld_cards(hand, sol[k].card_indices@),
    ensures
        flat_cards(cs.subrange(0, hi)) == meld_cards(hand, all_positions(sol, hi)),
    decreases hi,
{
    if hi == 0 {
        assert(flat_cards(cs.subrange(0, 0)) =~= Seq::<Card>::empty());
        assert(meld_cards(hand, all_positions(sol, 0)) =~= Seq::<Card>::empty());
    } else {
        lemma_flat_is_positions(hand, cs, sol, hi - 1);
        assert(cs.subrange(0, hi).drop_last() =~= cs.subrange(0, hi - 1));
        assert(cs.subrange(0, hi).last() == cs[hi - 1]);
        let a = all_positions(sol, hi - 1);
        let b = sol[hi - 1].card_indices@;
        assert(meld_cards(hand, a + b) =~= meld_cards(hand, a) + meld_cards(hand, b));
    }
}

/// The melds of a bot's bajada pass the checks `drop_hand` makes of them:
/// each a trio or an escala, as many of each as the round asks.
proof fn lemma_bajada_message_checks(hand: Seq<Card>, cs: Seq<Vec<Card>>, req: (int, int))
    requires
        bajada_message(hand, cs, req),
        0 <= req.0,
        0 <= req.1,
        hand.len() <= 16,
    ensures
        all_melds_ok(cs),
        trio_count(cs) == req.0,
        cs.len() - trio_count(cs) == req.1,
        flat_cards(cs).to_multiset().subset_of(hand.to_multiset()),
{
    let sol = choose|sol: Seq<MeldCandidate>|
        #[trigger] is_bajada(hand, sol, req.0, req.1) && cs.len() == sol.len() && forall|k: int|
            0 <= k < sol.len() ==> (#[trigger] cs[k])@ == meld_cards(hand, sol[k].card_indices@);
    assert forall|k: int| 0 <= k < cs.len() implies is_trio((#[trigger] cs[k])@) || is_escala(cs[k]@) by {
        assert(crate::combo_finder::candidate_ok(sol[k], hand));
    }
    assert forall|k: int| 0 <= k < req.0 implies is_trio((#[trigger] cs[k])@) by {
        assert(crate::combo_finder::candidate_ok(sol[k], hand));
    }
    assert forall|k: int| req.0 <= k < cs.len() implies !is_trio((#[trigger] cs[k])@) by {
        assert(crate::combo_finder::candidate_ok(sol[k], hand));
        assert(sol[k].meld_type != MeldType::Trio);
        lemma_escala_not_trio(cs[k]@);
    }
    lemma_trio_count_split(cs, req.0);
    assert forall|k: int| 0 <= k < sol.len() implies crate::combo_finder::positions_ok((#[trigger] sol[k]).card_indices@, hand.len() as int) by {
        assert(crate::combo_finder::candidate_ok(sol[k], hand));
    }
    lemma_all_positions(sol, sol.len() as int, hand.len() as int);
    lemma_flat_is_positions(hand, cs, sol, cs.len() as int);
    assert(cs.subrange(0, cs.len() as int) =~= cs);
    lemma_distinct_positions_in_hand(hand, all_positions(sol, sol.len() as int));
}

/// A bajada with the properties `play_bot_turn` promises of its `DropHand`,
/// from the seat to play of a game that takes actions, is accepted by
/// `drop_hand`.
pub proof fn lemma_bot_bajada_accepted(
    g: GameState,
    h: GameState,
    player_id: Seq<char>,
    cs: Seq<Vec<Card>>,
    r: Result<(), &'static str>,
)
    requires
        !g.is_game_over,
        !g.is_waiting_for_next_round,
        g.current_turn < g.players@.len(),
        g.players@[g.current_turn as int].id@ == player_id,
        g.players@[g.current_turn as int].has_drawn_this_turn,
        !g.players@[g.current_turn as int].has_dropped_hand,
        all_melds_ok(cs),
        trio_count(cs) == requirements(g.current_round).0,
        cs.len() - trio_count(cs) == requirements(g.current_round).1,
        flat_cards(cs).to_multiset().subset_of(g.players@[g.current_turn as int].hand@.to_multiset()),
        g.current_round == RoundType::EscalaReal ==> cs.len() == 1 && cs[0]@.len() == 13,
        drop_hand_post(g, h, player_id, cs, r),
    ensures
        r is Ok,
{
}

fn try_bajarse(game: &GameState, player: &PlayerState, difficulty: BotDifficulty) -> (r: Option<ClientMessage>)
    ensures
        r matches Some(m) ==> (m matches ClientMessage::DropHand { payload } && bajada_message(
            player.hand@,
            payload.combinations@,
            requirements(game.current_round),
        )),
        player.hand@.len() <= MAX_FINDER_HAND && game.current_round != RoundType::EscalaReal
            && has_shaped_bajada(player.hand@, requirements(game.current_round)) ==> r is Some,
        game.current_round == RoundType::EscalaReal ==> (r matches Some(ClientMessage::DropHand { payload })
            ==> payload.combinations@.len() == 1 && payload.combinations@[0]@.len() == 13),
        r matches Some(ClientMessage::DropHand { payload }) ==> {
            &&& all_melds_ok(payload.combinations@)
            &&& trio_count(payload.combinations@) == requirements(game.current_round).0
            &&& payload.combinations@.len() - trio_count(payload.combinations@) == requirements(game.current_round).1
            &&& flat_cards(payload.combinations@).to_multiset().subset_of(player.hand@.to_multiset())
        },
{
    if player.hand.len() > MAX_FINDER_HAND {
        return None;
    }
    let (req_trios, req_escalas) = game.current_round.get_requirements();
    let minimize_points = difficulty != BotDifficulty::Easy;
    let melds = match find_best_bajada(player.hand.as_slice(), req_trios, req_escalas, minimize_points) {
        Some(m) => m,
        None => {
            proof {
                if has_shaped_bajada(player.hand@, requirements(game.current_round)) {
                    let sol = choose|sol: Seq<MeldCandidate>|
                        #[trigger] shaped_bajada(player.hand@, sol, req_trios as int, req_escalas as int);
                    assert(shaped_bajada(player.hand@, sol, req_trios as int, req_escalas as int));
                }
            }
            return None;
        },
    };
    proof {
        assert forall|k: int| 0 <= k < melds@.len() implies forall|j: int| 0 <= j < (#[trigger] melds@[k]).card_indices@.len() ==> (#[trigger] melds@[k].card_indices@[j]) < player.hand@.len() by {
            assert(crate::combo_finder::candidate_ok(melds@[k], player.hand@));
        }
    }
    let combinations = candidate_cards(player.hand.as_slice(), &melds);
    if game.current_round == RoundType::EscalaReal {
        // the last round takes one escala of all thirteen ranks
        proof {
            assert(requirements(game.current_round) == (0int, 1int));
        }
        if combinations[0].len() != 13 {
            return None;
        }
    }
    proof {
        assert(is_bajada(player.hand@, melds@, requirements(game.current_round).0, requirements(game.current_round).1));
        assert(bajada_message(player.hand@, combinations@, requirements(game.current_round)));
        lemma_bajada_message_checks(player.hand@, combinations@, requirements(game.current_round));
    }
    Some(ClientMessage::DropHand { payload: DropHandPayload { combinations } })
}

/// The next action of the bot in seat `player_id` if it is its turn and the
/// game takes actions: draw when nothing is drawn yet; after drawing, its
/// bajada when it can make one (never on its first turn of the round), else
/// a discard; after drawing with its bajada down, a discard.
pub fn play_bot_turn(game: &GameState, player_id: &str, difficulty: BotDifficulty) -> (r: Option<ClientMessage>)
    requires
        game.players@.len() <= MAX_SEATS,
        forall|i: int| 0 <= i < game.players@.len() ==> (#[trigger] game.players@[i]).hand@.len() <= MAX_SCORED_HAND,
    ensures
        ({
            let t = game.current_turn as int;
            let p = game.players@[t];
            let live = !game.is_game_over && !game.is_waiting_for_next_round;
            &&& (!live || t >= game.players@.len() || p.id@ != player_id@) ==> r is None
            &&& (live && 0 <= t < game.players@.len() && p.id@ == player_id@) ==> {
                &&& p.has_drawn_this_turn && p.has_dropped_hand ==> (r matches Some(ClientMessage::Discard { payload })
                    && discard_choice_ok(*game, p, difficulty, payload.card_index as int))
                &&& p.has_drawn_this_turn && !p.has_dropped_hand ==> {
                    ||| (r matches Some(ClientMessage::Discard { payload })
                        && discard_choice_ok(*game, p, difficulty, payload.card_index as int))
                    ||| (r matches Some(ClientMessage::DropHand { payload })
                        && p.turns_played > 0
                        && bajada_message(p.hand@, payload.combinations@, requirements(game.current_round))
                        && all_melds_ok(payload.combinations@)
                        && trio_count(payload.combinations@) == requirements(game.current_round).0
                        && payload.combinations@.len() - trio_count(payload.combinations@)
                            == requirements(game.current_round).1
                        && flat_cards(payload.combinations@).to_multiset().subset_of(p.hand@.to_multiset())
                        && (game.current_round == RoundType::EscalaReal ==> payload.combinations@.len() == 1
                            && payload.combinations@[0]@.len() == 13))
                }
                &&& p.has_drawn_this_turn && !p.has_dropped_hand && p.turns_played > 0
                    && p.hand@.len() <= MAX_FINDER_HAND
                    && game.current_round != RoundType::EscalaReal
                    && has_shaped_bajada(p.hand@, requirements(game.current_round))
                    ==> (r matches Some(ClientMessage::DropHand { .. }))
                &&& !p.has_drawn_this_turn ==> {
                    &&& ((r matches Some(ClientMessage::DrawFromDeck)) || (r matches Some(ClientMessage::DrawFromDiscard)))
                    &&& game.discard_pile@.len() == 0 ==> (r matches Some(ClientMessage::DrawFromDeck))
                    &&& game.discard_pile@.len() > 0 && difficulty != BotDifficulty::Easy ==> ((r matches Some(
                        ClientMessage::DrawFromDiscard,
                    )) <==> synergy(p.hand@, game.discard_pile@.last()) >= DRAW_SYNERGY)
                }
            }
        }),
{
    if game.is_game_over || game.is_waiting_for_next_round {
        return None;
    }
    let idx = game.current_turn;
    if idx >= game.players.len() {
        return None;
    }
    let player = &game.players[idx];
    if !same_id(player.id.as_str(), player_id) {
        return None;
    }
    match detect_phase(player) {
        BotTurnPhase::NeedDraw => decide_draw(game, player, difficulty),
        BotTurnPhase::AfterDraw => {
            // never on the opening turn of the round
            if player.turns_played > 0 {
                if let Some(action) = try_bajarse(game, player, difficulty) {
                    return Some(action);
                }
            }
            Some(decide_discard(game, player, difficulty))
        },
        BotTurnPhase::AfterBajada => Some(decide_discard(game, player, difficulty)),
    }
}


} // verus!
