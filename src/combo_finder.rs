use vstd::prelude::*;

use crate::card::{card_rank, card_suit, Card, Suit};
use crate::points::hand_points;
use crate::rules::{
    escala_base, some_standard, lemma_escala_base_is, count_jokers, is_escala, is_trio, is_valid_escala, is_valid_trio, joker_count,
    lemma_joker_count_all, lemma_joker_count_bound, lemma_joker_count_prepend,
    lemma_joker_count_push,
};

verus! {

/// A bitmask of hand positions: bit `i` stands for `hand[i]`.
/// Hands of up to 16 cards fit.
pub type HandMask = u16;

/// Largest hand the meld finder handles (one bit of a `HandMask` per card).
pub const MAX_FINDER_HAND: usize = 16;

/// How good the cards left after a bajada are: fewer points first, then
/// more pairs that could grow into melds.
#[derive(Debug, Clone, Copy, PartialEq, Eq, PartialOrd, Ord, Structural)]
pub struct HandScore {
    /// Sum of the point values of the unused cards (lower is better).
    pub remaining_points: u32,
    /// Minus the number of partial-meld pairs among the unused cards.
    pub neg_partial_melds: i32,
}

/// The two kinds of meld.
#[derive(Debug, Clone, Copy, PartialEq, Eq, Structural)]
pub enum MeldType {
    Trio,
    Escala,
}

/// A meld found in a hand: which cards (by hand position) form a trio or
/// an escala, with the mask of those positions.
#[derive(Debug, Clone)]
pub struct MeldCandidate {
    pub meld_type: MeldType,
    /// Positions in the player's hand, in meld order.
    pub card_indices: Vec<usize>,
    /// Mask of `card_indices`, for fast overlap tests.
    pub mask: HandMask,
}

/// Bit `i` of `m` is set.
pub open spec fn mask_has(m: u16, i: int) -> bool {
    0 <= i < 16 && (m >> (i as u16)) & 1u16 == 1u16
}

/// `m` has exactly the bits of the positions in `idx`.
pub open spec fn mask_matches(m: u16, idx: Seq<usize>) -> bool {
    forall|i: int| 0 <= i < 16 ==> (#[trigger] mask_has(m, i) <==> idx.contains(i as usize))
}

/// The cards of `hand` at the positions `idx`, in that order.
pub open spec fn meld_cards(hand: Seq<Card>, idx: Seq<usize>) -> Seq<Card> {
    idx.map_values(|i: usize| hand[i as int])
}

/// Positions in range and pairwise distinct.
pub open spec fn positions_ok(idx: Seq<usize>, n: int) -> bool {
    &&& idx.no_duplicates()
    &&& forall|k: int| 0 <= k < idx.len() ==> #[trigger] idx[k] < n
}

/// `c` is a well-formed candidate for `hand`: distinct positions inside
/// the hand, the right mask, and the cards form a meld of its type.
pub open spec fn candidate_ok(c: MeldCandidate, hand: Seq<Card>) -> bool {
    &&& hand.len() <= 16
    &&& positions_ok(c.card_indices@, hand.len() as int)
    &&& mask_matches(c.mask, c.card_indices@)
    &&& c.meld_type == MeldType::Trio ==> is_trio(meld_cards(hand, c.card_indices@))
    &&& c.meld_type == MeldType::Escala ==> is_escala(meld_cards(hand, c.card_indices@))
}

proof fn lemma_bit_or(m: u16, k: u16, i: u16)
    requires
        k < 16,
        i < 16,
    ensures
        ((m | (1u16 << k)) >> i) & 1u16 == 1u16 <==> ((m >> i) & 1u16 == 1u16 || i == k),
{
    assert(((m | (1u16 << k)) >> i) & 1u16 == 1u16 <==> ((m >> i) & 1u16 == 1u16 || i == k))
        by (bit_vector)
        requires
            k < 16,
            i < 16,
    ;
}

proof fn lemma_bit_zero(i: u16)
    ensures
        (0u16 >> i) & 1u16 != 1u16,
{
    assert((0u16 >> i) & 1u16 != 1u16) by (bit_vector);
}

proof fn lemma_bit_and(a: u16, b: u16, i: u16)
    requires
        i < 16,
    ensures
        ((a & b) >> i) & 1u16 == 1u16 <==> ((a >> i) & 1u16 == 1u16 && (b >> i) & 1u16 == 1u16),
        (a & b) == 0u16 ==> ((a & b) >> i) & 1u16 != 1u16,
{
    assert(((a & b) >> i) & 1u16 == 1u16 <==> ((a >> i) & 1u16 == 1u16 && (b >> i) & 1u16
        == 1u16)) by (bit_vector)
        requires
            i < 16,
    ;
    assert((a & b) == 0u16 ==> ((a & b) >> i) & 1u16 != 1u16) by (bit_vector);
}

proof fn lemma_bit_union(a: u16, b: u16, i: u16)
    requires
        i < 16,
    ensures
        ((a | b) >> i) & 1u16 == 1u16 <==> ((a >> i) & 1u16 == 1u16 || (b >> i) & 1u16 == 1u16),
{
    assert(((a | b) >> i) & 1u16 == 1u16 <==> ((a >> i) & 1u16 == 1u16 || (b >> i) & 1u16
        == 1u16)) by (bit_vector)
        requires
            i < 16,
    ;
}

proof fn lemma_nonzero_has_bit(x: u16)
    requires
        x != 0u16,
    ensures
        exists|i: int| 0 <= i < 16 && mask_has(x, i),
{
    if forall|i: int| 0 <= i < 16 ==> !mask_has(x, i) {
        assert(!mask_has(x, 0) && !mask_has(x, 1) && !mask_has(x, 2) && !mask_has(x, 3));
        assert(!mask_has(x, 4) && !mask_has(x, 5) && !mask_has(x, 6) && !mask_has(x, 7));
        assert(!mask_has(x, 8) && !mask_has(x, 9) && !mask_has(x, 10) && !mask_has(x, 11));
        assert(!mask_has(x, 12) && !mask_has(x, 13) && !mask_has(x, 14) && !mask_has(x, 15));
        assert(((x >> 0u16) & 1u16 != 1u16 && (x >> 1u16) & 1u16 != 1u16 && (x >> 2u16) & 1u16
            != 1u16 && (x >> 3u16) & 1u16 != 1u16 && (x >> 4u16) & 1u16 != 1u16 && (x >> 5u16)
            & 1u16 != 1u16 && (x >> 6u16) & 1u16 != 1u16 && (x >> 7u16) & 1u16 != 1u16 && (x
            >> 8u16) & 1u16 != 1u16 && (x >> 9u16) & 1u16 != 1u16 && (x >> 10u16) & 1u16 != 1u16
            && (x >> 11u16) & 1u16 != 1u16 && (x >> 12u16) & 1u16 != 1u16 && (x >> 13u16) & 1u16
            != 1u16 && (x >> 14u16) & 1u16 != 1u16 && (x >> 15u16) & 1u16 != 1u16) ==> x == 0u16)
            by (bit_vector);
    }
}

/// Some bit is set in both masks exactly when they share a position.
pub proof fn lemma_mask_and(a: u16, b: u16)
    ensures
        (a & b) != 0u16 <==> exists|i: int| 0 <= i < 16 && mask_has(a, i) && mask_has(b, i),
{
    if (a & b) != 0u16 {
        lemma_nonzero_has_bit(a & b);
        let w = choose|i: int| 0 <= i < 16 && mask_has(a & b, i);
        lemma_bit_and(a, b, w as u16);
        assert(mask_has(a, w) && mask_has(b, w));
    }
    if exists|i: int| 0 <= i < 16 && mask_has(a, i) && mask_has(b, i) {
        let i = choose|i: int| 0 <= i < 16 && mask_has(a, i) && mask_has(b, i);
        lemma_bit_and(a, b, i as u16);
        lemma_bit_zero(i as u16);
    }
}

pub proof fn lemma_mask_union(a: u16, b: u16, i: int)
    requires
        0 <= i < 16,
    ensures
        mask_has(a | b, i) <==> mask_has(a, i) || mask_has(b, i),
{
    lemma_bit_union(a, b, i as u16);
}

impl MeldCandidate {
    /// A candidate of the given type over the given hand positions, with
    /// its mask computed.
    pub fn new(meld_type: MeldType, card_indices: Vec<usize>) -> (r: MeldCandidate)
        requires
            forall|k: int| 0 <= k < card_indices@.len() ==> #[trigger] card_indices@[k] < 16,
        ensures
            r.meld_type == meld_type,
            r.card_indices@ == card_indices@,
            mask_matches(r.mask, card_indices@),
    {
        let mut mask: u16 = 0;
        let mut k: usize = 0;
        proof {
            assert forall|i: int| 0 <= i < 16 implies !mask_has(0u16, i) by {
                lemma_bit_zero(i as u16);
            }
        }
        while k < card_indices.len()
            invariant
                k <= card_indices@.len(),
                forall|j: int| 0 <= j < card_indices@.len() ==> #[trigger] card_indices@[j] < 16,
                forall|i: int|
                    0 <= i < 16 ==> (#[trigger] mask_has(mask, i) <==> card_indices@.subrange(
                        0,
                        k as int,
                    ).contains(i as usize)),
            decreases card_indices@.len() - k,
        {
            let b = card_indices[k] as u16;
            let ghost old_mask = mask;
            mask = mask | (1u16 << b);
            proof {
                let pre = card_indices@.subrange(0, k as int);
                let post = card_indices@.subrange(0, k as int + 1);
                assert(post =~= pre.push(card_indices@[k as int]));
                assert forall|i: int| 0 <= i < 16 implies (#[trigger] mask_has(mask, i)
                    <==> post.contains(i as usize)) by {
                    lemma_bit_or(old_mask, b, i as u16);
                    assert(mask_has(mask, i) <==> (mask_has(old_mask, i) || i == b as int));
                    assert(i == b as int <==> card_indices@[k as int] == i as usize);
                    assert(post.contains(i as usize) <==> (pre.contains(i as usize)
                        || card_indices@[k as int] == i as usize)) by {
                        if post.contains(i as usize) && !pre.contains(i as usize) {
                            let w = choose|w: int| 0 <= w < post.len() && post[w] == i as usize;
                            assert(w == k);
                        }
                        if pre.contains(i as usize) {
                            let w = choose|w: int| 0 <= w < pre.len() && pre[w] == i as usize;
                            assert(post[w] == i as usize);
                        }
                        if card_indices@[k as int] == i as usize {
                            assert(post[k as int] == i as usize);
                        }
                    }
                }
            }
            k = k + 1;
        }
        proof {
            assert(card_indices@.subrange(0, k as int) =~= card_indices@);
        }
        MeldCandidate { meld_type, card_indices, mask }
    }

    /// True if this meld shares a card position with `other`.
    pub fn overlaps(&self, other: &MeldCandidate) -> (r: bool)
        ensures
            r == ((self.mask & other.mask) != 0u16),
            r <==> exists|i: int| 0 <= i < 16 && mask_has(self.mask, i) && mask_has(other.mask, i),
    {
        proof {
            lemma_mask_and(self.mask, other.mask);
        }
        (self.mask & other.mask) != 0
    }
}

/// Positions strictly increasing.
pub open spec fn increasing(v: Seq<usize>) -> bool {
    forall|a: int, b: int| 0 <= a < b < v.len() ==> v[a] < v[b]
}

/// Positions of the standard cards of rank `rank` in `hand`, in increasing order.
pub open spec fn positions_of_rank(hand: Seq<Card>, rank: int) -> Seq<usize>
    decreases hand.len(),
{
    if hand.len() == 0 {
        Seq::empty()
    } else {
        let pre = positions_of_rank(hand.drop_last(), rank);
        if hand.last() is Standard && card_rank(hand.last()) == rank {
            pre.push((hand.len() - 1) as usize)
        } else {
            pre
        }
    }
}

/// Positions of the jokers in `hand`, in increasing order.
pub open spec fn positions_of_jokers(hand: Seq<Card>) -> Seq<usize>
    decreases hand.len(),
{
    if hand.len() == 0 {
        Seq::empty()
    } else {
        let pre = positions_of_jokers(hand.drop_last());
        if hand.last() is Joker {
            pre.push((hand.len() - 1) as usize)
        } else {
            pre
        }
    }
}

/// Positions of the jokers in `hand`, in increasing order.
fn joker_positions(hand: &[Card]) -> (r: Vec<usize>)
    ensures
        r@ == positions_of_jokers(hand@),
        increasing(r@),
        forall|k: int| 0 <= k < r@.len() ==> #[trigger] r@[k] < hand@.len() && hand@[r@[k] as int] is Joker,
        forall|i: int| 0 <= i < hand@.len() && hand@[i] is Joker ==> r@.contains(i as usize),
{
    let mut r: Vec<usize> = Vec::new();
    let mut i: usize = 0;
    while i < hand.len()
        invariant
            i <= hand@.len(),
            increasing(r@),
            forall|k: int| 0 <= k < r@.len() ==> #[trigger] r@[k] < i && hand@[r@[k] as int] is Joker,
            forall|j: int| 0 <= j < i && hand@[j] is Joker ==> r@.contains(j as usize),
            r@ == positions_of_jokers(hand@.subrange(0, i as int)),
        decreases hand@.len() - i,
    {
        proof {
            assert(hand@.subrange(0, i as int + 1).drop_last() =~= hand@.subrange(0, i as int));
        }
        if hand[i].is_joker() {
            let ghost old_r = r@;
            r.push(i);
            proof {
                assert forall|j: int| 0 <= j < i + 1 && hand@[j] is Joker implies r@.contains(
                    j as usize,
                ) by {
                    if j < i {
                        let w = choose|w: int| 0 <= w < old_r.len() && old_r[w] == j as usize;
                        assert(r@[w] == j as usize);
                    } else {
                        assert(r@[old_r.len() as int] == j as usize);
                    }
                }
            }
        }
        i = i + 1;
    }
    proof {
        assert(hand@.subrange(0, i as int) =~= hand@);
    }
    r
}

/// Positions of the standard cards of rank `rank` in `hand`, in increasing order.
fn rank_positions(hand: &[Card], rank: u8) -> (r: Vec<usize>)
    ensures
        increasing(r@),
        r@.len() <= hand@.len(),
        forall|k: int|
            0 <= k < r@.len() ==> #[trigger] r@[k] < hand@.len() && hand@[r@[k] as int] is Standard
                && card_rank(hand@[r@[k] as int]) == rank as int,
        r@ == positions_of_rank(hand@, rank as int),
{
    let mut r: Vec<usize> = Vec::new();
    let mut i: usize = 0;
    while i < hand.len()
        invariant
            i <= hand@.len(),
            increasing(r@),
            r@.len() <= i,
            forall|k: int|
                0 <= k < r@.len() ==> #[trigger] r@[k] < i && hand@[r@[k] as int] is Standard
                    && card_rank(hand@[r@[k] as int]) == rank as int,
            r@ == positions_of_rank(hand@.subrange(0, i as int), rank as int),
        decreases hand@.len() - i,
    {
        proof {
            assert(hand@.subrange(0, i as int + 1).drop_last() =~= hand@.subrange(0, i as int));
        }
        if let Card::Standard { value, .. } = hand[i] {
            if value.rank() == rank {
                r.push(i);
            }
        }
        i = i + 1;
    }
    proof {
        assert(hand@.subrange(0, i as int) =~= hand@);
    }
    r
}

/// A copy of `v[start..end]`.
fn copy_range(v: &Vec<usize>, start: usize, end: usize) -> (r: Vec<usize>)
    requires
        start <= end <= v@.len(),
    ensures
        r@ == v@.subrange(start as int, end as int),
{
    let mut r: Vec<usize> = Vec::new();
    let mut k: usize = start;
    while k < end
        invariant
            start <= k <= end <= v@.len(),
            r@ == v@.subrange(start as int, k as int),
        decreases end - k,
    {
        r.push(v[k]);
        proof {
            assert(r@ =~= v@.subrange(start as int, k as int + 1));
        }
        k = k + 1;
    }
    r
}

proof fn lemma_increasing_no_dup(v: Seq<usize>)
    requires
        increasing(v),
    ensures
        v.no_duplicates(),
{
    assert forall|a: int, b: int| 0 <= a < v.len() && 0 <= b < v.len() && a != b implies v[a]
        != v[b] by {
        if a < b {
            assert(v[a] < v[b]);
        } else {
            assert(v[b] < v[a]);
        }
    }
}

/// Three or more standard cards of one rank form a trio.
proof fn lemma_same_rank_trio(hand: Seq<Card>, idx: Seq<usize>, rank: int)
    requires
        idx.len() >= 3,
        forall|k: int|
            0 <= k < idx.len() ==> #[trigger] idx[k] < hand.len() && hand[idx[k] as int] is Standard
                && card_rank(hand[idx[k] as int]) == rank,
    ensures
        is_trio(meld_cards(hand, idx)),
{
    let m = meld_cards(hand, idx);
    assert forall|k: int| 0 <= k < m.len() implies m[k] is Standard && card_rank(m[k]) == rank by {
        assert(m[k] == hand[idx[k] as int]);
    }
    lemma_joker_count_bound(m);
}

/// Two standard cards of one rank and a joker form a trio.
proof fn lemma_pair_joker_trio(hand: Seq<Card>, a: usize, b: usize, j: usize)
    requires
        a < hand.len(),
        b < hand.len(),
        j < hand.len(),
        hand[a as int] is Standard,
        hand[b as int] is Standard,
        card_rank(hand[a as int]) == card_rank(hand[b as int]),
        hand[j as int] is Joker,
    ensures
        is_trio(meld_cards(hand, seq![a, b, j])),
{
    let m = meld_cards(hand, seq![a, b, j]);
    assert(m[0] == hand[a as int] && m[1] == hand[b as int] && m[2] == hand[j as int]);
    let pre = m.drop_last();
    assert forall|k: int| 0 <= k < pre.len() implies pre[k] is Standard by {
        assert(pre[k] == m[k]);
    }
    lemma_joker_count_bound(pre);
    assert(m =~= pre.push(m[2]));
    lemma_joker_count_push(pre, m[2]);
}

/// Every candidate in `cs` is well formed for `hand` and of type `t`.
pub open spec fn all_candidates_ok(cs: Seq<MeldCandidate>, hand: Seq<Card>, t: MeldType) -> bool {
    forall|k: int| 0 <= k < cs.len() ==> candidate_ok(#[trigger] cs[k], hand) && cs[k].meld_type == t
}

proof fn lemma_all_ok_push(cs: Seq<MeldCandidate>, c: MeldCandidate, hand: Seq<Card>, t: MeldType)
    requires
        all_candidates_ok(cs, hand, t),
        candidate_ok(c, hand),
        c.meld_type == t,
    ensures
        all_candidates_ok(cs.push(c), hand, t),
{
    assert forall|k: int| 0 <= k < cs.push(c).len() implies candidate_ok(#[trigger] cs.push(c)[k], hand)
        && cs.push(c)[k].meld_type == t by {
        if k < cs.len() {
            assert(cs.push(c)[k] == cs[k]);
        }
    }
}

/// Standard cards of rank `rank` at increasing positions of `hand`.
spec fn rank_run(hand: Seq<Card>, idx: Seq<usize>, rank: int) -> bool {
    &&& increasing(idx)
    &&& forall|k: int|
        0 <= k < idx.len() ==> #[trigger] idx[k] < hand.len() && hand[idx[k] as int] is Standard
            && card_rank(hand[idx[k] as int]) == rank
}

/// Some candidate of `cs` has exactly the positions `idx`.
pub open spec fn has_candidate(cs: Seq<MeldCandidate>, idx: Seq<usize>) -> bool {
    exists|a: int| 0 <= a < cs.len() && (#[trigger] cs[a]).card_indices@ == idx
}

/// `idx` is a window of three or more consecutive positions (in hand
/// order) of the standard cards of rank `rank`.
pub open spec fn window_trio(hand: Seq<Card>, idx: Seq<usize>, rank: int) -> bool {
    let ps = positions_of_rank(hand, rank);
    exists|s: int, e: int| 0 <= s && s + 3 <= e <= ps.len() && idx == ps.subrange(s, e)
}

/// `idx` is two standard cards of rank `rank` (in hand order) and a joker.
pub open spec fn joker_trio(hand: Seq<Card>, idx: Seq<usize>, rank: int) -> bool {
    let ps = positions_of_rank(hand, rank);
    let js = positions_of_jokers(hand);
    exists|i: int, k: int, j: int|
        0 <= i < k < ps.len() && 0 <= j < js.len() && idx == seq![ps[i], ps[k], js[j]]
}

/// `idx` has one of the shapes the trio enumeration yields.
pub open spec fn trio_shape(hand: Seq<Card>, idx: Seq<usize>) -> bool {
    exists|rank: int| 2 <= rank <= 14 && (window_trio(hand, idx, rank) || joker_trio(hand, idx, rank))
}

proof fn lemma_positions_of_rank(hand: Seq<Card>, rank: int)
    requires
        hand.len() <= usize::MAX,
    ensures
        increasing(positions_of_rank(hand, rank)),
        forall|k: int|
            0 <= k < positions_of_rank(hand, rank).len() ==> {
                let q = #[trigger] positions_of_rank(hand, rank)[k];
                &&& q < hand.len()
                &&& hand[q as int] is Standard
                &&& card_rank(hand[q as int]) == rank
            },
    decreases hand.len(),
{
    if hand.len() > 0 {
        lemma_positions_of_rank(hand.drop_last(), rank);
        let pre = positions_of_rank(hand.drop_last(), rank);
        let ps = positions_of_rank(hand, rank);
        assert forall|k: int| 0 <= k < ps.len() implies {
            let q = #[trigger] ps[k];
            &&& q < hand.len()
            &&& hand[q as int] is Standard
            &&& card_rank(hand[q as int]) == rank
        } by {
            if k < pre.len() {
                assert(ps[k] == pre[k]);
                assert(hand[pre[k] as int] == hand.drop_last()[pre[k] as int]);
            } else {
                assert(ps[k] == (hand.len() - 1) as usize);
            }
        }
        assert forall|a: int, b: int| 0 <= a < b < ps.len() implies ps[a] < ps[b] by {
            if b < pre.len() {
                assert(ps[a] == pre[a] && ps[b] == pre[b]);
            } else {
                assert(ps[a] == pre[a]);
                assert(ps[b] == (hand.len() - 1) as usize);
            }
        }
    }
}

/// Two trio shapes over the same positions are the same sequence.
proof fn lemma_trio_unique(hand: Seq<Card>, x: Seq<usize>, y: Seq<usize>)
    requires
        hand.len() <= 16,
        trio_shape(hand, x),
        trio_shape(hand, y),
        forall|v: usize| x.contains(v) <==> y.contains(v),
    ensures
        x == y,
{
    lemma_positions_of_jokers(hand);
    let js = positions_of_jokers(hand);
    let rx = choose|rank: int| 2 <= rank <= 14 && (window_trio(hand, x, rank) || joker_trio(hand, x, rank));
    let ry = choose|rank: int| 2 <= rank <= 14 && (window_trio(hand, y, rank) || joker_trio(hand, y, rank));
    lemma_positions_of_rank(hand, rx);
    lemma_positions_of_rank(hand, ry);
    let px = positions_of_rank(hand, rx);
    let py = positions_of_rank(hand, ry);
    // the first element of each is a standard card of its rank
    if window_trio(hand, x, rx) {
        let (s1, e1) = choose|s1: int, e1: int| 0 <= s1 && s1 + 3 <= e1 <= px.len() && x == px.subrange(s1, e1);
        assert(x[0] == px[s1]);
        assert(y.contains(x[0]));
        if window_trio(hand, y, ry) {
            let (s2, e2) = choose|s2: int, e2: int| 0 <= s2 && s2 + 3 <= e2 <= py.len() && y == py.subrange(s2, e2);
            let t = choose|t: int| 0 <= t < y.len() && y[t] == x[0];
            assert(y[t] == py[s2 + t]);
            assert(rx == ry);
            assert(x.contains(y[0]));
            let t2 = choose|t: int| 0 <= t < x.len() && x[t] == y[0];
            assert(x[t2] == px[s1 + t2]);
            assert(y[0] == py[s2]);
            if s1 < s2 {
                assert(px[s1] < px[s2 + t]);
            }
            if s2 < s1 {
                assert(px[s2] < px[s1 + t2]);
            }
            assert(s1 == s2);
            assert(x.contains(x[x.len() - 1]));
            assert(y.contains(x[x.len() - 1]));
            let u = choose|u: int| 0 <= u < y.len() && y[u] == x[x.len() - 1];
            assert(y[u] == py[s2 + u]);
            assert(x[x.len() - 1] == px[e1 - 1]);
            assert(x.contains(y[y.len() - 1]));
            let u2 = choose|u: int| 0 <= u < x.len() && x[u] == y[y.len() - 1];
            assert(x[u2] == px[s1 + u2]);
            assert(y[y.len() - 1] == py[e2 - 1]);
            if e1 < e2 {
                assert(px[s1 + u2] < px[e2 - 1]);
            }
            if e2 < e1 {
                assert(px[s2 + u] < px[e1 - 1]);
            }
            assert(x =~= y);
        } else {
            let (i2, k2, j2) = choose|i2: int, k2: int, j2: int|
                0 <= i2 < k2 < py.len() && 0 <= j2 < js.len() && y == seq![py[i2], py[k2], js[j2]];
            assert(y.contains(js[j2]));
            let t = choose|t: int| 0 <= t < x.len() && x[t] == js[j2];
            assert(x[t] == px[s1 + t]);
        }
    } else {
        let (i1, k1, j1) = choose|i1: int, k1: int, j1: int|
            0 <= i1 < k1 < px.len() && 0 <= j1 < js.len() && x == seq![px[i1], px[k1], js[j1]];
        if window_trio(hand, y, ry) {
            let (s2, e2) = choose|s2: int, e2: int| 0 <= s2 && s2 + 3 <= e2 <= py.len() && y == py.subrange(s2, e2);
            assert(x.contains(js[j1]));
            let t = choose|t: int| 0 <= t < y.len() && y[t] == js[j1];
            assert(y[t] == py[s2 + t]);
        } else {
            let (i2, k2, j2) = choose|i2: int, k2: int, j2: int|
                0 <= i2 < k2 < py.len() && 0 <= j2 < js.len() && y == seq![py[i2], py[k2], js[j2]];
            assert(x.contains(x[0]) && x.contains(x[1]) && x.contains(x[2]));
            assert(y.contains(y[0]) && y.contains(y[1]) && y.contains(y[2]));
            assert(y.contains(px[i1]));
            assert(rx == ry);
            assert(y.contains(js[j1]) && x.contains(js[j2]));
            assert(px[i1] < px[k1] && py[i2] < py[k2]);
            assert(y.contains(px[k1]));
            assert(x.contains(py[i2]) && x.contains(py[k2]));
            assert(x =~= y);
        }
    }
}

proof fn lemma_has_candidate_extend(cs: Seq<MeldCandidate>, more: Seq<MeldCandidate>, idx: Seq<usize>)
    requires
        has_candidate(cs, idx),
        cs.len() <= more.len(),
        forall|a: int| 0 <= a < cs.len() ==> #[trigger] more[a] == cs[a],
    ensures
        has_candidate(more, idx),
{
    let a = choose|a: int| 0 <= a < cs.len() && (#[trigger] cs[a]).card_indices@ == idx;
    assert(more[a] == cs[a]);
}

/// Adds the trio `c` unless its positions are already listed (as the same
/// trio: two trio shapes over the same positions are equal).
fn push_trio(out: &mut Vec<MeldCandidate>, c: MeldCandidate, hand: Ghost<Seq<Card>>)
    requires
        hand@.len() <= MAX_FINDER_HAND,
        candidate_ok(c, hand@),
        c.meld_type == MeldType::Trio,
        trio_shape(hand@, c.card_indices@),
        all_candidates_ok(old(out)@, hand@, MeldType::Trio),
        distinct_masks(old(out)@),
        forall|a: int| 0 <= a < old(out)@.len() ==> trio_shape(hand@, (#[trigger] old(out)@[a]).card_indices@),
    ensures
        all_candidates_ok(final(out)@, hand@, MeldType::Trio),
        distinct_masks(final(out)@),
        forall|a: int| 0 <= a < final(out)@.len() ==> trio_shape(hand@, (#[trigger] final(out)@[a]).card_indices@),
        old(out)@.len() <= final(out)@.len(),
        forall|a: int| 0 <= a < old(out)@.len() ==> #[trigger] final(out)@[a] == old(out)@[a],
        has_candidate(final(out)@, c.card_indices@),
{
    if let Some(j) = has_mask(out, c.mask) {
        proof {
            let o = out@[j as int];
            assert(candidate_ok(o, hand@));
            assert forall|x: usize| c.card_indices@.contains(x) <==> o.card_indices@.contains(x) by {
                if c.card_indices@.contains(x) {
                    let w = choose|w: int| 0 <= w < c.card_indices@.len() && c.card_indices@[w] == x;
                    assert(mask_has(c.mask, x as int));
                }
                if o.card_indices@.contains(x) {
                    let w = choose|w: int| 0 <= w < o.card_indices@.len() && o.card_indices@[w] == x;
                    assert(mask_has(o.mask, x as int));
                }
            }
            lemma_trio_unique(hand@, c.card_indices@, o.card_indices@);
        }
        return;
    }
    proof {
        lemma_all_ok_push(out@, c, hand@, MeldType::Trio);
    }
    let ghost before = out@;
    out.push(c);
    proof {
        assert(out@[before.len() as int] == c);
        let cs = out@;
        assert forall|a: int, b: int| 0 <= a < cs.len() && 0 <= b < cs.len() && a != b implies (#[trigger] cs[a]).mask != (#[trigger] cs[b]).mask by {
            if a < before.len() && b < before.len() {
                assert(cs[a] == before[a] && cs[b] == before[b]);
            } else if a < before.len() {
                assert(cs[a] == before[a]);
            } else {
                assert(cs[b] == before[b]);
            }
        }
        assert forall|a: int| 0 <= a < out@.len() implies trio_shape(hand@, (#[trigger] out@[a]).card_indices@) by {
            if a < before.len() {
                assert(out@[a] == before[a]);
            }
        }
    }
}

/// Pushes the trio of every window of three or more of `indices`.
fn push_window_trios(hand: &[Card], indices: &Vec<usize>, rank: u8, out: &mut Vec<MeldCandidate>)
    requires
        hand@.len() <= MAX_FINDER_HAND,
        rank_run(hand@, indices@, rank as int),
        indices@.len() <= hand@.len(),
        indices@ == positions_of_rank(hand@, rank as int),
        2 <= rank <= 14,
        all_candidates_ok(old(out)@, hand@, MeldType::Trio),
        distinct_masks(old(out)@),
        forall|a: int| 0 <= a < old(out)@.len() ==> trio_shape(hand@, (#[trigger] old(out)@[a]).card_indices@),
    ensures
        all_candidates_ok(final(out)@, hand@, MeldType::Trio),
        distinct_masks(final(out)@),
        forall|a: int| 0 <= a < final(out)@.len() ==> trio_shape(hand@, (#[trigger] final(out)@[a]).card_indices@),
        old(out)@.len() <= final(out)@.len(),
        forall|a: int| 0 <= a < old(out)@.len() ==> #[trigger] final(out)@[a] == old(out)@[a],
        forall|s: int, e: int|
            0 <= s && s + 3 <= e <= indices@.len() ==> has_candidate(final(out)@, #[trigger] indices@.subrange(s, e)),
{
    let n = indices.len();
    let ghost start0 = out@;
    let mut start: usize = 0;
    while start < n
        invariant
            start <= n == indices@.len() <= 16,
            hand@.len() <= MAX_FINDER_HAND,
            rank_run(hand@, indices@, rank as int),
            indices@ == positions_of_rank(hand@, rank as int),
            2 <= rank <= 14,
            all_candidates_ok(out@, hand@, MeldType::Trio),
                distinct_masks(out@),
            forall|a: int| 0 <= a < out@.len() ==> trio_shape(hand@, (#[trigger] out@[a]).card_indices@),
            start0 == old(out)@,
            start0.len() <= out@.len(),
            forall|a: int| 0 <= a < start0.len() ==> #[trigger] out@[a] == start0[a],
            forall|s: int, e: int|
                0 <= s < start && s + 3 <= e <= indices@.len() ==> has_candidate(out@, #[trigger] indices@.subrange(s, e)),
        decreases n - start,
    {
        let mut end: usize = start + 3;
        while end <= n
            invariant
                start < n == indices@.len() <= 16,
                start + 3 <= end <= 19,
                hand@.len() <= MAX_FINDER_HAND,
                rank_run(hand@, indices@, rank as int),
                indices@ == positions_of_rank(hand@, rank as int),
                2 <= rank <= 14,
                all_candidates_ok(out@, hand@, MeldType::Trio),
                distinct_masks(out@),
                forall|a: int| 0 <= a < out@.len() ==> trio_shape(hand@, (#[trigger] out@[a]).card_indices@),
                start0 == old(out)@,
                start0.len() <= out@.len(),
                forall|a: int| 0 <= a < start0.len() ==> #[trigger] out@[a] == start0[a],
                forall|s: int, e: int|
                    ((0 <= s < start && s + 3 <= e <= indices@.len()) || (s == start && s + 3 <= e < end))
                        ==> has_candidate(out@, #[trigger] indices@.subrange(s, e)),
            decreases n + 1 - end,
        {
            let subset = copy_range(indices, start, end);
            let c = MeldCandidate::new(MeldType::Trio, subset);
            proof {
                let sub = indices@.subrange(start as int, end as int);
                assert forall|k: int| 0 <= k < sub.len() implies #[trigger] sub[k] < hand@.len()
                    && hand@[sub[k] as int] is Standard && card_rank(hand@[sub[k] as int])
                    == rank as int by {
                    assert(sub[k] == indices@[start + k]);
                }
                lemma_same_rank_trio(hand@, sub, rank as int);
                assert(increasing(sub)) by {
                    assert forall|a: int, b: int| 0 <= a < b < sub.len() implies sub[a] < sub[b] by {
                        assert(sub[a] == indices@[start + a] && sub[b] == indices@[start + b]);
                    }
                }
                lemma_increasing_no_dup(sub);
                assert(window_trio(hand@, sub, rank as int));
            }
            let ghost before = out@;
            push_trio(out, c, Ghost(hand@));
            proof {
                assert forall|s: int, e: int|
                    ((0 <= s < start && s + 3 <= e <= indices@.len()) || (s == start && s + 3 <= e < end + 1))
                        implies has_candidate(out@, #[trigger] indices@.subrange(s, e)) by {
                    if !(s == start && e == end) {
                        lemma_has_candidate_extend(before, out@, indices@.subrange(s, e));
                    }
                }
            }
            end = end + 1;
        }
        start = start + 1;
    }
}

/// Pushes, for the joker at `joker_idx`, the trio of every pair of `indices` with it.
fn push_joker_trios(hand: &[Card], indices: &Vec<usize>, rank: u8, joker_idx: usize, out: &mut Vec<MeldCandidate>)
    requires
        hand@.len() <= MAX_FINDER_HAND,
        rank_run(hand@, indices@, rank as int),
        indices@ == positions_of_rank(hand@, rank as int),
        2 <= rank <= 14,
        joker_idx < hand@.len(),
        hand@[joker_idx as int] is Joker,
        positions_of_jokers(hand@).contains(joker_idx),
        all_candidates_ok(old(out)@, hand@, MeldType::Trio),
        distinct_masks(old(out)@),
        forall|a: int| 0 <= a < old(out)@.len() ==> trio_shape(hand@, (#[trigger] old(out)@[a]).card_indices@),
    ensures
        all_candidates_ok(final(out)@, hand@, MeldType::Trio),
        distinct_masks(final(out)@),
        forall|a: int| 0 <= a < final(out)@.len() ==> trio_shape(hand@, (#[trigger] final(out)@[a]).card_indices@),
        old(out)@.len() <= final(out)@.len(),
        forall|a: int| 0 <= a < old(out)@.len() ==> #[trigger] final(out)@[a] == old(out)@[a],
        forall|i: int, k: int|
            0 <= i < k < indices@.len() ==> has_candidate(final(out)@, seq![#[trigger] indices@[i], #[trigger] indices@[k], joker_idx]),
{
    let n = indices.len();
    let ghost start0 = out@;
    let mut i: usize = 0;
    while i < n
        invariant
            n == indices@.len(),
            hand@.len() <= MAX_FINDER_HAND,
            joker_idx < hand@.len(),
            hand@[joker_idx as int] is Joker,
            rank_run(hand@, indices@, rank as int),
            indices@ == positions_of_rank(hand@, rank as int),
            2 <= rank <= 14,
            positions_of_jokers(hand@).contains(joker_idx),
            all_candidates_ok(out@, hand@, MeldType::Trio),
                distinct_masks(out@),
            forall|a: int| 0 <= a < out@.len() ==> trio_shape(hand@, (#[trigger] out@[a]).card_indices@),
            start0 == old(out)@,
            start0.len() <= out@.len(),
            forall|a: int| 0 <= a < start0.len() ==> #[trigger] out@[a] == start0[a],
            forall|i2: int, k: int|
                0 <= i2 < i && i2 < k < indices@.len() ==> has_candidate(out@, seq![#[trigger] indices@[i2], #[trigger] indices@[k], joker_idx]),
        decreases n - i,
    {
        let mut j: usize = i + 1;
        while j < n
            invariant
                i < n == indices@.len(),
                i < j,
                hand@.len() <= MAX_FINDER_HAND,
                joker_idx < hand@.len(),
                hand@[joker_idx as int] is Joker,
                rank_run(hand@, indices@, rank as int),
                indices@ == positions_of_rank(hand@, rank as int),
                2 <= rank <= 14,
                positions_of_jokers(hand@).contains(joker_idx),
                all_candidates_ok(out@, hand@, MeldType::Trio),
                distinct_masks(out@),
                forall|a: int| 0 <= a < out@.len() ==> trio_shape(hand@, (#[trigger] out@[a]).card_indices@),
                start0 == old(out)@,
                start0.len() <= out@.len(),
                forall|a: int| 0 <= a < start0.len() ==> #[trigger] out@[a] == start0[a],
                forall|i2: int, k: int|
                    ((0 <= i2 < i && i2 < k < indices@.len()) || (i2 == i && i2 < k < j))
                        ==> has_candidate(out@, seq![#[trigger] indices@[i2], #[trigger] indices@[k], joker_idx]),
            decreases n - j,
        {
            let a = indices[i];
            let b = indices[j];
            let subset = vec![a, b, joker_idx];
            proof {
                assert(subset@ =~= seq![a, b, joker_idx]);
                assert(a < b);
                lemma_pair_joker_trio(hand@, a, b, joker_idx);
                assert(subset@.no_duplicates()) by {
                    assert(a != joker_idx && b != joker_idx);
                }
            }
            let c = MeldCandidate::new(MeldType::Trio, subset);
            proof {
                let js = positions_of_jokers(hand@);
                let w = choose|w: int| 0 <= w < js.len() && js[w] == joker_idx;
                assert(c.card_indices@ == seq![indices@[i as int], indices@[j as int], js[w]]);
                assert(joker_trio(hand@, c.card_indices@, rank as int));
            }
            let ghost before = out@;
            push_trio(out, c, Ghost(hand@));
            proof {
                assert forall|i2: int, k: int|
                    ((0 <= i2 < i && i2 < k < indices@.len()) || (i2 == i && i2 < k < j + 1))
                        implies has_candidate(out@, seq![#[trigger] indices@[i2], #[trigger] indices@[k], joker_idx]) by {
                    if !(i2 == i && k == j) {
                        lemma_has_candidate_extend(before, out@, seq![indices@[i2], indices@[k], joker_idx]);
                    } else {
                        assert(c.card_indices@ == seq![indices@[i2], indices@[k], joker_idx]);
                    }
                }
            }
            j = j + 1;
        }
        i = i + 1;
    }
}

/// All trio candidates of `hand`. For each rank, with its standard cards
/// taken in hand order: every run of three or more consecutive ones (a
/// start/end window of that order), and, for each joker, every pair of
/// them with the joker; nothing else.
pub fn find_all_trio_candidates(hand: &[Card]) -> (r: Vec<MeldCandidate>)
    requires
        hand@.len() <= MAX_FINDER_HAND,
    ensures
        all_candidates_ok(r@, hand@, MeldType::Trio),
        distinct_masks(r@),
        forall|a: int| 0 <= a < r@.len() ==> trio_shape(hand@, (#[trigger] r@[a]).card_indices@),
        forall|rank: int, s: int, e: int|
            2 <= rank <= 14 && 0 <= s && s + 3 <= e <= positions_of_rank(hand@, rank).len()
                ==> has_candidate(r@, #[trigger] positions_of_rank(hand@, rank).subrange(s, e)),
        forall|rank: int, i: int, k: int, j: int|
            2 <= rank <= 14 && 0 <= i < k < positions_of_rank(hand@, rank).len() && 0 <= j
                < positions_of_jokers(hand@).len() ==> has_candidate(
                r@,
                #[trigger] seq![positions_of_rank(hand@, rank)[i], positions_of_rank(hand@, rank)[k], positions_of_jokers(hand@)[j]],
            ),
{
    let mut candidates: Vec<MeldCandidate> = Vec::new();
    let jokers = joker_positions(hand);
    let mut rank: u8 = 2;
    while rank <= 14
        invariant
            2 <= rank <= 15,
            hand@.len() <= MAX_FINDER_HAND,
            jokers@ == positions_of_jokers(hand@),
            forall|k: int| 0 <= k < jokers@.len() ==> #[trigger] jokers@[k] < hand@.len()
                && hand@[jokers@[k] as int] is Joker,
            all_candidates_ok(candidates@, hand@, MeldType::Trio),
                distinct_masks(candidates@),
            forall|a: int| 0 <= a < candidates@.len() ==> trio_shape(hand@, (#[trigger] candidates@[a]).card_indices@),
            forall|r2: int, s: int, e: int|
                2 <= r2 < rank && 0 <= s && s + 3 <= e <= positions_of_rank(hand@, r2).len()
                    ==> has_candidate(candidates@, #[trigger] positions_of_rank(hand@, r2).subrange(s, e)),
            forall|r2: int, i: int, k: int, j: int|
                2 <= r2 < rank && 0 <= i < k < positions_of_rank(hand@, r2).len() && 0 <= j
                    < positions_of_jokers(hand@).len() ==> has_candidate(
                    candidates@,
                    #[trigger] seq![positions_of_rank(hand@, r2)[i], positions_of_rank(hand@, r2)[k], positions_of_jokers(hand@)[j]],
                ),
        decreases 15 - rank,
    {
        let indices = rank_positions(hand, rank);
        let ghost c0 = candidates@;
        push_window_trios(hand, &indices, rank, &mut candidates);
        let ghost c1 = candidates@;
        let mut jk: usize = 0;
        if indices.len() >= 2 {
            while jk < jokers.len()
                invariant
                    hand@.len() <= MAX_FINDER_HAND,
                    2 <= rank <= 14,
                    rank_run(hand@, indices@, rank as int),
                    indices@ == positions_of_rank(hand@, rank as int),
                    jokers@ == positions_of_jokers(hand@),
                    jk <= jokers@.len(),
                    forall|k: int| 0 <= k < jokers@.len() ==> #[trigger] jokers@[k] < hand@.len()
                        && hand@[jokers@[k] as int] is Joker,
                    all_candidates_ok(candidates@, hand@, MeldType::Trio),
                distinct_masks(candidates@),
                    forall|a: int| 0 <= a < candidates@.len() ==> trio_shape(hand@, (#[trigger] candidates@[a]).card_indices@),
                    c1.len() <= candidates@.len(),
                    forall|a: int| 0 <= a < c1.len() ==> #[trigger] candidates@[a] == c1[a],
                    forall|i: int, k: int, j: int|
                        0 <= i < k < indices@.len() && 0 <= j < jk ==> has_candidate(
                            candidates@,
                            #[trigger] seq![indices@[i], indices@[k], jokers@[j]],
                        ),
                decreases jokers@.len() - jk,
            {
                let ghost before = candidates@;
                proof {
                    assert(jokers@.contains(jokers@[jk as int]));
                }
                push_joker_trios(hand, &indices, rank, jokers[jk], &mut candidates);
                proof {
                    assert forall|i: int, k: int, j: int|
                        0 <= i < k < indices@.len() && 0 <= j < jk + 1 implies has_candidate(
                            candidates@,
                            #[trigger] seq![indices@[i], indices@[k], jokers@[j]],
                        ) by {
                        if j < jk {
                            lemma_has_candidate_extend(before, candidates@, seq![indices@[i], indices@[k], jokers@[j]]);
                        } else {
                            assert(has_candidate(candidates@, seq![indices@[i], indices@[k], jokers@[jk as int]]));
                        }
                    }
                }
                jk = jk + 1;
            }
        }
        proof {
            let r = rank as int;
            assert forall|r2: int, s: int, e: int|
                2 <= r2 < rank + 1 && 0 <= s && s + 3 <= e <= positions_of_rank(hand@, r2).len()
                    implies has_candidate(candidates@, #[trigger] positions_of_rank(hand@, r2).subrange(s, e)) by {
                if r2 < r {
                    lemma_has_candidate_extend(c0, c1, positions_of_rank(hand@, r2).subrange(s, e));
                }
                lemma_has_candidate_extend(c1, candidates@, positions_of_rank(hand@, r2).subrange(s, e));
            }
            assert forall|r2: int, i: int, k: int, j: int|
                2 <= r2 < rank + 1 && 0 <= i < k < positions_of_rank(hand@, r2).len() && 0 <= j
                    < positions_of_jokers(hand@).len() implies has_candidate(
                    candidates@,
                    #[trigger] seq![positions_of_rank(hand@, r2)[i], positions_of_rank(hand@, r2)[k], positions_of_jokers(hand@)[j]],
                ) by {
                let idx = seq![positions_of_rank(hand@, r2)[i], positions_of_rank(hand@, r2)[k], positions_of_jokers(hand@)[j]];
                if r2 < r {
                    lemma_has_candidate_extend(c0, c1, idx);
                    lemma_has_candidate_extend(c1, candidates@, idx);
                } else {
                    assert(idx == seq![indices@[i], indices@[k], jokers@[j]]);
                }
            }
        }
        rank = rank + 1;
    }
    candidates
}

proof fn lemma_joker_count_at_most_one(s: Seq<Card>)
    requires
        forall|i: int, j: int|
            0 <= i < s.len() && 0 <= j < s.len() && s[i] is Joker && s[j] is Joker ==> i == j,
    ensures
        joker_count(s) <= 1,
    decreases s.len(),
{
    if s.len() > 0 {
        let pre = s.drop_last();
        if s.last() is Joker {
            assert forall|k: int| 0 <= k < pre.len() implies pre[k] is Standard by {
                assert(pre[k] == s[k]);
                if pre[k] is Joker {
                    assert(s[k] is Joker && s[s.len() - 1] is Joker);
                }
            }
            lemma_joker_count_bound(pre);
        } else {
            assert forall|i: int, j: int|
                0 <= i < pre.len() && 0 <= j < pre.len() && pre[i] is Joker && pre[j] is Joker implies i
                == j by {
                assert(pre[i] == s[i] && pre[j] == s[j]);
            }
            lemma_joker_count_at_most_one(pre);
        }
    }
}

/// No two candidates share a mask.
pub open spec fn distinct_masks(cs: Seq<MeldCandidate>) -> bool {
    forall|a: int, b: int| 0 <= a < cs.len() && 0 <= b < cs.len() && a != b ==> (#[trigger] cs[a]).mask != (#[trigger] cs[b]).mask
}

/// Positions of the standard cards of `suit` and rank `rank` in `hand`, in increasing order.
pub open spec fn positions_of_card(hand: Seq<Card>, suit: Suit, rank: int) -> Seq<usize>
    decreases hand.len(),
{
    if hand.len() == 0 {
        Seq::empty()
    } else {
        let pre = positions_of_card(hand.drop_last(), suit, rank);
        if hand.last() is Standard && card_suit(hand.last()) == suit && card_rank(hand.last()) == rank {
            pre.push((hand.len() - 1) as usize)
        } else {
            pre
        }
    }
}

proof fn lemma_positions_of_card(hand: Seq<Card>, suit: Suit, rank: int)
    requires
        hand.len() <= usize::MAX,
    ensures
        forall|k: int|
            0 <= k < positions_of_card(hand, suit, rank).len() ==> {
                let q = #[trigger] positions_of_card(hand, suit, rank)[k];
                &&& q < hand.len()
                &&& hand[q as int] is Standard
                &&& card_suit(hand[q as int]) == suit
                &&& card_rank(hand[q as int]) == rank
            },
    decreases hand.len(),
{
    if hand.len() > 0 {
        lemma_positions_of_card(hand.drop_last(), suit, rank);
        let pre = positions_of_card(hand.drop_last(), suit, rank);
        let ps = positions_of_card(hand, suit, rank);
        assert forall|k: int| 0 <= k < ps.len() implies {
            let q = #[trigger] ps[k];
            &&& q < hand.len()
            &&& hand[q as int] is Standard
            &&& card_suit(hand[q as int]) == suit
            &&& card_rank(hand[q as int]) == rank
        } by {
            if k < pre.len() {
                assert(ps[k] == pre[k]);
                assert(hand[pre[k] as int] == hand.drop_last()[pre[k] as int]);
            } else {
                assert(ps[k] == (hand.len() - 1) as usize);
            }
        }
    }
}

proof fn lemma_positions_of_jokers(hand: Seq<Card>)
    requires
        hand.len() <= usize::MAX,
    ensures
        forall|k: int|
            0 <= k < positions_of_jokers(hand).len() ==> (#[trigger] positions_of_jokers(hand)[k]) < hand.len()
                && hand[positions_of_jokers(hand)[k] as int] is Joker,
    decreases hand.len(),
{
    if hand.len() > 0 {
        lemma_positions_of_jokers(hand.drop_last());
        let pre = positions_of_jokers(hand.drop_last());
        let ps = positions_of_jokers(hand);
        assert forall|k: int| 0 <= k < ps.len() implies (#[trigger] ps[k]) < hand.len() && hand[ps[k] as int] is Joker by {
            if k < pre.len() {
                assert(ps[k] == pre[k]);
                assert(hand[pre[k] as int] == hand.drop_last()[pre[k] as int]);
            } else {
                assert(ps[k] == (hand.len() - 1) as usize);
            }
        }
    }
}

/// The run's joker, if `jp > 0`, stands at place `jp - 1`.
pub open spec fn joker_at(jp: int, p: int) -> bool {
    jp > 0 && p == jp - 1
}

/// A joker may stand at place `p` of the run of `suit` from rank `b`: the
/// hand has a joker and no card of that suit and rank; at the first place
/// the run also continues a card of the rank below, as a joker in a gap of
/// that longer run would.
pub open spec fn joker_place_ok(hand: Seq<Card>, suit: Suit, b: int, p: int) -> bool {
    &&& positions_of_jokers(hand).len() > 0
    &&& positions_of_card(hand, suit, b + p).len() == 0
    &&& p == 0 ==> 3 <= b && positions_of_card(hand, suit, b - 1).len() > 0
}

/// Place `p` of the run of `suit` from rank `b` can be filled: by the first
/// joker of the hand where the joker stands, elsewhere by the first card of
/// the suit and rank `b + p`, in hand order.
pub open spec fn run_slot_ok(hand: Seq<Card>, suit: Suit, b: int, jp: int, p: int) -> bool {
    if joker_at(jp, p) {
        joker_place_ok(hand, suit, b, p)
    } else {
        positions_of_card(hand, suit, b + p).len() > 0
    }
}

pub open spec fn run_slot(hand: Seq<Card>, suit: Suit, b: int, jp: int, p: int) -> usize {
    if joker_at(jp, p) {
        positions_of_jokers(hand)[0]
    } else {
        positions_of_card(hand, suit, b + p)[0]
    }
}

/// A run of `len` places in `suit` from rank `b`, inside 2..=14, at least
/// four long, its joker (if any) anywhere but the last place, every place
/// filled.
pub open spec fn run_params_ok(hand: Seq<Card>, suit: Suit, b: int, len: int, jp: int) -> bool {
    &&& 2 <= b
    &&& b + len - 1 <= 14
    &&& 4 <= len
    &&& 0 <= jp < len
    &&& forall|p: int| 0 <= p < len ==> #[trigger] run_slot_ok(hand, suit, b, jp, p)
}

/// The positions of that run, place by place.
pub open spec fn run_positions(hand: Seq<Card>, suit: Suit, b: int, len: int, jp: int) -> Seq<usize> {
    Seq::new(len as nat, |p: int| run_slot(hand, suit, b, jp, p))
}

/// `idx` has one of the shapes the escala enumeration yields: one suit,
/// consecutive ranks inside 2..=14, at least four places, the first card
/// (in hand order) of each rank, and at most one joker, the hand's first,
/// standing for a rank of the suit the hand lacks: between two cards, or
/// first in a run cut from one whose rank below the joker the hand holds.
pub open spec fn escala_shape(hand: Seq<Card>, idx: Seq<usize>) -> bool {
    exists|suit: Suit, b: int, len: int, jp: int|
        #[trigger] run_params_ok(hand, suit, b, len, jp) && idx == run_positions(hand, suit, b, len, jp)
}

/// What stands at each place of a run.
proof fn lemma_run_slots(hand: Seq<Card>, suit: Suit, b: int, len: int, jp: int)
    requires
        hand.len() <= 16,
        run_params_ok(hand, suit, b, len, jp),
    ensures
        forall|p: int|
            0 <= p < len ==> {
                let q = #[trigger] run_positions(hand, suit, b, len, jp)[p];
                &&& q < hand.len()
                &&& joker_at(jp, p) ==> hand[q as int] is Joker
                &&& !joker_at(jp, p) ==> hand[q as int] is Standard && card_suit(hand[q as int]) == suit
                    && card_rank(hand[q as int]) == b + p
            },
{
    let idx = run_positions(hand, suit, b, len, jp);
    lemma_positions_of_jokers(hand);
    assert forall|p: int| 0 <= p < len implies {
        let q = #[trigger] idx[p];
        &&& q < hand.len()
        &&& joker_at(jp, p) ==> hand[q as int] is Joker
        &&& !joker_at(jp, p) ==> hand[q as int] is Standard && card_suit(hand[q as int]) == suit
            && card_rank(hand[q as int]) == b + p
    } by {
        assert(run_slot_ok(hand, suit, b, jp, p));
        lemma_positions_of_card(hand, suit, b + p);
    }
}

/// A hand holding a card of `suit` and `rank` lists a position for it.
proof fn lemma_positions_of_card_found(hand: Seq<Card>, suit: Suit, rank: int, q: int)
    requires
        0 <= q < hand.len(),
        hand[q] is Standard,
        card_suit(hand[q]) == suit,
        card_rank(hand[q]) == rank,
    ensures
        positions_of_card(hand, suit, rank).len() > 0,
    decreases hand.len(),
{
    if q < hand.len() - 1 {
        assert(hand.drop_last()[q] == hand[q]);
        lemma_positions_of_card_found(hand.drop_last(), suit, rank, q);
    }
}

/// Two runs over the same positions are the same run.
proof fn lemma_run_unique(
    hand: Seq<Card>,
    s1: Suit,
    b1: int,
    l1: int,
    j1: int,
    s2: Suit,
    b2: int,
    l2: int,
    j2: int,
)
    requires
        hand.len() <= 16,
        run_params_ok(hand, s1, b1, l1, j1),
        run_params_ok(hand, s2, b2, l2, j2),
        forall|x: usize|
            run_positions(hand, s1, b1, l1, j1).contains(x) <==> run_positions(hand, s2, b2, l2, j2).contains(x),
    ensures
        run_positions(hand, s1, b1, l1, j1) == run_positions(hand, s2, b2, l2, j2),
{
    let i1 = run_positions(hand, s1, b1, l1, j1);
    let i2 = run_positions(hand, s2, b2, l2, j2);
    lemma_run_slots(hand, s1, b1, l1, j1);
    lemma_run_slots(hand, s2, b2, l2, j2);
    // the last places are standard cards, of the same suit and rank
    assert(i1.contains(i1[l1 - 1]));
    let r = choose|r: int| 0 <= r < i2.len() && i2[r] == i1[l1 - 1];
    assert(i2.contains(i2[l2 - 1]));
    let r2 = choose|r: int| 0 <= r < i1.len() && i1[r] == i2[l2 - 1];
    assert(s1 == s2);
    assert(b1 + l1 == b2 + l2);
    // a joker is in both or in neither
    if j1 > 0 {
        assert(i1.contains(i1[j1 - 1]));
        let w = choose|w: int| 0 <= w < i2.len() && i2[w] == i1[j1 - 1];
        assert(joker_at(j2, w));
    }
    if j2 > 0 {
        assert(i2.contains(i2[j2 - 1]));
        let w = choose|w: int| 0 <= w < i1.len() && i1[w] == i2[j2 - 1];
        assert(joker_at(j1, w));
    }
    if j1 == 0 {
        // no joker: the first places are standard cards of the same rank
        assert(i1.contains(i1[0]));
        let q = choose|q: int| 0 <= q < i2.len() && i2[q] == i1[0];
        assert(i2.contains(i2[0]));
        let q2 = choose|q: int| 0 <= q < i1.len() && i1[q] == i2[0];
        assert(b1 == b2);
    } else {
        // the rank each joker stands for is the same
        let m1 = b1 + j1 - 1;
        let m2 = b2 + j2 - 1;
        assert(run_slot_ok(hand, s1, b1, j1, j1 - 1));
        assert(run_slot_ok(hand, s2, b2, j2, j2 - 1));
        if m1 != m2 {
            if b2 <= m1 {
                // run 2 holds a card of rank m1, which the hand lacks
                let p = m1 - b2;
                assert(!joker_at(j2, p));
                lemma_positions_of_card_found(hand, s1, m1, i2[p] as int);
            } else if b1 <= m2 {
                let p = m2 - b1;
                assert(!joker_at(j1, p));
                lemma_positions_of_card_found(hand, s2, m2, i1[p] as int);
            }
        }
        assert(m1 == m2);
        if j1 > 1 && j2 > 1 {
            assert(i1.contains(i1[0]));
            let q = choose|q: int| 0 <= q < i2.len() && i2[q] == i1[0];
            assert(i2.contains(i2[0]));
            let q2 = choose|q: int| 0 <= q < i1.len() && i1[q] == i2[0];
            assert(b1 == b2);
        } else if j1 > 1 {
            assert(i1.contains(i1[0]));
            let q = choose|q: int| 0 <= q < i2.len() && i2[q] == i1[0];
        } else if j2 > 1 {
            assert(i2.contains(i2[0]));
            let q = choose|q: int| 0 <= q < i1.len() && i1[q] == i2[0];
        }
        assert(b1 == b2);
    }
    assert(i1 =~= i2);
}

proof fn lemma_run_candidate(hand: Seq<Card>, suit: Suit, b: int, len: int, jp: int)
    requires
        hand.len() <= 16,
        run_params_ok(hand, suit, b, len, jp),
    ensures
        positions_ok(run_positions(hand, suit, b, len, jp), hand.len() as int),
        is_escala(meld_cards(hand, run_positions(hand, suit, b, len, jp))),
        run_positions(hand, suit, b, len, jp).len() <= 13,
{
    let idx = run_positions(hand, suit, b, len, jp);
    let m = meld_cards(hand, idx);
    lemma_positions_of_jokers(hand);
    assert forall|p: int| 0 <= p < len implies {
        let q = #[trigger] idx[p];
        &&& q < hand.len()
        &&& joker_at(jp, p) ==> hand[q as int] is Joker
        &&& !joker_at(jp, p) ==> hand[q as int] is Standard && card_suit(hand[q as int]) == suit
            && card_rank(hand[q as int]) == b + p
    } by {
        assert(run_slot_ok(hand, suit, b, jp, p));
        lemma_positions_of_card(hand, suit, b + p);
    }
    assert forall|x: int, y: int| 0 <= x < idx.len() && 0 <= y < idx.len() && x != y implies idx[x] != idx[y] by {
        if idx[x] == idx[y] {
            if joker_at(jp, x) {
            } else if joker_at(jp, y) {
            } else {
            }
        }
    }
    assert forall|p: int| 0 <= p < m.len() implies #[trigger] m[p] == hand[idx[p] as int] by {}
    assert forall|x: int, y: int|
        0 <= x < m.len() && 0 <= y < m.len() && m[x] is Joker && m[y] is Joker implies x == y by {
        assert(m[x] == hand[idx[x] as int] && m[y] == hand[idx[y] as int]);
    }
    lemma_joker_count_at_most_one(m);
    assert forall|x: int, y: int|
        0 <= x < m.len() && 0 <= y < m.len() && m[x] is Standard && m[y] is Standard implies card_rank(
        #[trigger] m[y]) - card_rank(#[trigger] m[x]) == y - x && card_suit(m[x]) == card_suit(m[y]) by {
        assert(m[x] == hand[idx[x] as int] && m[y] == hand[idx[y] as int]);
    }
    assert forall|k: int| 0 <= k < m.len() && (#[trigger] m[k]) is Standard implies card_rank(m[k]) - k == b by {
        assert(m[k] == hand[idx[k] as int]);
    }
    let f: int = if jp == 1 { 1 } else { 0 };
    assert(m[f] == hand[idx[f] as int]);
    assert(m[f] is Standard);
    lemma_escala_base_is(m, b);
}

/// Positions of the standard cards of `suit` and rank `rank` in `hand`, in increasing order.
fn card_positions(hand: &[Card], suit: Suit, rank: u8) -> (r: Vec<usize>)
    ensures
        r@ == positions_of_card(hand@, suit, rank as int),
{
    let mut r: Vec<usize> = Vec::new();
    let mut i: usize = 0;
    while i < hand.len()
        invariant
            i <= hand@.len(),
            r@ == positions_of_card(hand@.subrange(0, i as int), suit, rank as int),
        decreases hand@.len() - i,
    {
        proof {
            assert(hand@.subrange(0, i as int + 1).drop_last() =~= hand@.subrange(0, i as int));
        }
        if let Card::Standard { suit: s, value } = hand[i] {
            if s == suit && value.rank() == rank {
                r.push(i);
            }
        }
        i = i + 1;
    }
    proof {
        assert(hand@.subrange(0, i as int) =~= hand@);
    }
    r
}

/// Whether some candidate of `cs` has mask `m`.
fn has_mask(cs: &Vec<MeldCandidate>, m: HandMask) -> (r: Option<usize>)
    ensures
        r matches Some(j) ==> j < cs@.len() && cs@[j as int].mask == m,
        r is None ==> forall|j: int| 0 <= j < cs@.len() ==> #[trigger] cs@[j].mask != m,
{
    let mut k: usize = 0;
    while k < cs.len()
        invariant
            k <= cs@.len(),
            forall|j: int| 0 <= j < k ==> #[trigger] cs@[j].mask != m,
        decreases cs@.len() - k,
    {
        if cs[k].mask == m {
            return Some(k);
        }
        k = k + 1;
    }
    None
}

/// Pushes the run of `suit` from rank `b`, `len` places long, with its
/// joker at place `jp - 1` (none for 0), if the hand has every card of it.
fn push_run(
    hand: &[Card],
    suit: Suit,
    b: u8,
    len: usize,
    jp: usize,
    jokers: &Vec<usize>,
    out: &mut Vec<MeldCandidate>,
)
    requires
        hand@.len() <= MAX_FINDER_HAND,
        2 <= b,
        b + len - 1 <= 14,
        4 <= len,
        jp < len,
        jokers@ == positions_of_jokers(hand@),
        all_candidates_ok(old(out)@, hand@, MeldType::Escala),
        distinct_masks(old(out)@),
        forall|a: int| 0 <= a < old(out)@.len() ==> escala_shape(hand@, (#[trigger] old(out)@[a]).card_indices@),
    ensures
        all_candidates_ok(final(out)@, hand@, MeldType::Escala),
        distinct_masks(final(out)@),
        forall|a: int| 0 <= a < final(out)@.len() ==> escala_shape(hand@, (#[trigger] final(out)@[a]).card_indices@),
        old(out)@.len() <= final(out)@.len(),
        forall|a: int| 0 <= a < old(out)@.len() ==> #[trigger] final(out)@[a] == old(out)@[a],
        run_params_ok(hand@, suit, b as int, len as int, jp as int) ==> has_candidate(
            final(out)@,
            run_positions(hand@, suit, b as int, len as int, jp as int),
        ),
{
    let ghost bi = b as int;
    let ghost li = len as int;
    let ghost ji = jp as int;
    let mut seq: Vec<usize> = Vec::new();
    let mut p: usize = 0;
    while p < len
        invariant
            p <= len,
            b + len - 1 <= 14,
            jokers@ == positions_of_jokers(hand@),
            seq@.len() == p,
            forall|q: int| 0 <= q < p ==> #[trigger] run_slot_ok(hand@, suit, bi, ji, q),
            forall|q: int| 0 <= q < p ==> #[trigger] seq@[q] == run_slot(hand@, suit, bi, ji, q),
            bi == b,
            ji == jp,
            out@ == old(out)@,
            distinct_masks(old(out)@),
            all_candidates_ok(old(out)@, hand@, MeldType::Escala),
            forall|a: int| 0 <= a < old(out)@.len() ==> escala_shape(hand@, (#[trigger] old(out)@[a]).card_indices@),
        decreases len - p,
    {
        if jp > 0 && p == jp - 1 {
            let here = card_positions(hand, suit, b + p as u8);
            let below_ok = if p == 0 {
                b >= 3 && card_positions(hand, suit, b - 1).len() > 0
            } else {
                true
            };
            if jokers.len() == 0 || here.len() > 0 || !below_ok {
                proof {
                    assert(!run_slot_ok(hand@, suit, bi, ji, p as int));
                }
                return;
            }
            proof {
                assert(run_slot_ok(hand@, suit, bi, ji, p as int));
            }
            seq.push(jokers[0]);
        } else {
            let ps = card_positions(hand, suit, b + p as u8);
            if ps.len() == 0 {
                proof {
                    assert(!run_slot_ok(hand@, suit, bi, ji, p as int));
                }
                return;
            }
            seq.push(ps[0]);
        }
        p = p + 1;
    }
    proof {
        assert(run_params_ok(hand@, suit, bi, li, ji));
        assert(seq@ =~= run_positions(hand@, suit, bi, li, ji));
        lemma_run_candidate(hand@, suit, bi, li, ji);
        assert forall|k: int| 0 <= k < seq@.len() implies #[trigger] seq@[k] < 16 by {
            assert(positions_ok(seq@, hand@.len() as int));
        }
    }
    let c = MeldCandidate::new(MeldType::Escala, seq);
    if let Some(j) = has_mask(out, c.mask) {
        // the same positions are already listed: as the same run
        proof {
            let o = out@[j as int];
            assert(candidate_ok(o, hand@));
            assert(escala_shape(hand@, o.card_indices@));
            let (s2, b2, l2, j2) = choose|s2: Suit, b2: int, l2: int, j2: int|
                #[trigger] run_params_ok(hand@, s2, b2, l2, j2) && o.card_indices@ == run_positions(hand@, s2, b2, l2, j2);
            assert forall|x: usize| c.card_indices@.contains(x) <==> o.card_indices@.contains(x) by {
                if c.card_indices@.contains(x) {
                    let w = choose|w: int| 0 <= w < c.card_indices@.len() && c.card_indices@[w] == x;
                    assert(x < 16);
                    assert(mask_has(c.mask, x as int));
                }
                if o.card_indices@.contains(x) {
                    let w = choose|w: int| 0 <= w < o.card_indices@.len() && o.card_indices@[w] == x;
                    assert(x < hand@.len());
                    assert(mask_has(o.mask, x as int));
                }
            }
            lemma_run_unique(hand@, suit, bi, li, ji, s2, b2, l2, j2);
            assert(out@[j as int].card_indices@ == run_positions(hand@, suit, bi, li, ji));
        }
        return;
    }
    proof {
        lemma_all_ok_push(out@, c, hand@, MeldType::Escala);
    }
    let ghost before = out@;
    out.push(c);
    proof {
        assert(out@[before.len() as int] == c);
        let cs = out@;
        assert forall|a: int, b: int| 0 <= a < cs.len() && 0 <= b < cs.len() && a != b implies (#[trigger] cs[a]).mask != (#[trigger] cs[b]).mask by {
            if a < before.len() && b < before.len() {
                assert(cs[a] == before[a] && cs[b] == before[b]);
            } else if a < before.len() {
                assert(cs[a] == before[a]);
            } else {
                assert(cs[b] == before[b]);
            }
        }
        assert(escala_shape(hand@, c.card_indices@));
        assert forall|a: int| 0 <= a < out@.len() implies escala_shape(hand@, (#[trigger] out@[a]).card_indices@) by {
            if a < before.len() {
                assert(out@[a] == before[a]);
            }
        }
    }
}

/// Pushes every run of `suit` from rank `b`.
fn push_runs_from(hand: &[Card], suit: Suit, b: u8, jokers: &Vec<usize>, out: &mut Vec<MeldCandidate>)
    requires
        hand@.len() <= MAX_FINDER_HAND,
        2 <= b <= 14,
        jokers@ == positions_of_jokers(hand@),
        all_candidates_ok(old(out)@, hand@, MeldType::Escala),
        distinct_masks(old(out)@),
        forall|a: int| 0 <= a < old(out)@.len() ==> escala_shape(hand@, (#[trigger] old(out)@[a]).card_indices@),
    ensures
        all_candidates_ok(final(out)@, hand@, MeldType::Escala),
        distinct_masks(final(out)@),
        forall|a: int| 0 <= a < final(out)@.len() ==> escala_shape(hand@, (#[trigger] final(out)@[a]).card_indices@),
        old(out)@.len() <= final(out)@.len(),
        forall|a: int| 0 <= a < old(out)@.len() ==> #[trigger] final(out)@[a] == old(out)@[a],
        forall|len: int, jp: int|
            #[trigger] run_params_ok(hand@, suit, b as int, len, jp) ==> has_candidate(
                final(out)@,
                run_positions(hand@, suit, b as int, len, jp),
            ),
{
    let ghost start0 = out@;
    let mut len: usize = 4;
    while len + b as usize <= 15
        invariant
            hand@.len() <= MAX_FINDER_HAND,
            2 <= b <= 14,
            4 <= len <= 16,
            jokers@ == positions_of_jokers(hand@),
            all_candidates_ok(out@, hand@, MeldType::Escala),
            distinct_masks(out@),
            forall|a: int| 0 <= a < out@.len() ==> escala_shape(hand@, (#[trigger] out@[a]).card_indices@),
            start0 == old(out)@,
            start0.len() <= out@.len(),
            forall|a: int| 0 <= a < start0.len() ==> #[trigger] out@[a] == start0[a],
            forall|l: int, jp: int|
                l < len && #[trigger] run_params_ok(hand@, suit, b as int, l, jp) ==> has_candidate(
                    out@,
                    run_positions(hand@, suit, b as int, l, jp),
                ),
        decreases 16 - len,
    {
        let mut jp: usize = 0;
        while jp < len
            invariant
                hand@.len() <= MAX_FINDER_HAND,
                2 <= b <= 14,
                4 <= len,
                len + b <= 15,
                jp <= len,
                jokers@ == positions_of_jokers(hand@),
                all_candidates_ok(out@, hand@, MeldType::Escala),
                distinct_masks(out@),
                forall|a: int| 0 <= a < out@.len() ==> escala_shape(hand@, (#[trigger] out@[a]).card_indices@),
                start0 == old(out)@,
                start0.len() <= out@.len(),
                forall|a: int| 0 <= a < start0.len() ==> #[trigger] out@[a] == start0[a],
                forall|l: int, j: int|
                    (l < len || (l == len && j < jp)) && #[trigger] run_params_ok(hand@, suit, b as int, l, j)
                        ==> has_candidate(out@, run_positions(hand@, suit, b as int, l, j)),
            decreases len - jp,
        {
            let ghost before = out@;
            push_run(hand, suit, b, len, jp, jokers, out);
            proof {
                assert forall|l: int, j: int|
                    (l < len || (l == len && j < jp + 1)) && #[trigger] run_params_ok(hand@, suit, b as int, l, j)
                        implies has_candidate(out@, run_positions(hand@, suit, b as int, l, j)) by {
                    if !(l == len && j == jp) {
                        lemma_has_candidate_extend(before, out@, run_positions(hand@, suit, b as int, l, j));
                    }
                }
            }
            jp = jp + 1;
        }
        len = len + 1;
    }
}

/// All escala candidates of `hand`: for each suit, each lowest rank and
/// each length of four or more inside 2..=14, the run made of the first
/// card (in hand order) of each rank, where the hand's first joker may
/// stand for one rank of the suit the hand lacks, either between two cards
/// or first, after a card of the rank below that the run leaves out;
/// nothing else, and no two candidates over the same positions.
pub fn find_all_escala_candidates(hand: &[Card]) -> (r: Vec<MeldCandidate>)
    requires
        hand@.len() <= MAX_FINDER_HAND,
    ensures
        all_candidates_ok(r@, hand@, MeldType::Escala),
        distinct_masks(r@),
        forall|a: int| 0 <= a < r@.len() ==> escala_shape(hand@, (#[trigger] r@[a]).card_indices@),
        forall|a: int| 0 <= a < r@.len() ==> (#[trigger] r@[a]).card_indices@.len() <= 13,
        forall|suit: Suit, b: int, len: int, jp: int|
            #[trigger] run_params_ok(hand@, suit, b, len, jp) ==> has_candidate(
                r@,
                run_positions(hand@, suit, b, len, jp),
            ),
{
    let mut candidates: Vec<MeldCandidate> = Vec::new();
    let jokers = joker_positions(hand);
    let suits = [Suit::Hearts, Suit::Diamonds, Suit::Clubs, Suit::Spades];
    let mut k: usize = 0;
    while k < 4
        invariant
            hand@.len() <= MAX_FINDER_HAND,
            k <= 4,
            suits@ == seq![Suit::Hearts, Suit::Diamonds, Suit::Clubs, Suit::Spades],
            jokers@ == positions_of_jokers(hand@),
            all_candidates_ok(candidates@, hand@, MeldType::Escala),
            distinct_masks(candidates@),
            forall|a: int| 0 <= a < candidates@.len() ==> escala_shape(hand@, (#[trigger] candidates@[a]).card_indices@),
            forall|suit: Suit, b: int, len: int, jp: int|
                (exists|j: int| 0 <= j < k && suits@[j] == suit) && #[trigger] run_params_ok(hand@, suit, b, len, jp)
                    ==> has_candidate(candidates@, run_positions(hand@, suit, b, len, jp)),
        decreases 4 - k,
    {
        let suit = suits[k];
        let mut b: u8 = 2;
        let ghost c0 = candidates@;
        while b <= 14
            invariant
                hand@.len() <= MAX_FINDER_HAND,
                2 <= b <= 15,
                k < 4,
                suit == suits@[k as int],
                suits@ == seq![Suit::Hearts, Suit::Diamonds, Suit::Clubs, Suit::Spades],
                jokers@ == positions_of_jokers(hand@),
                all_candidates_ok(candidates@, hand@, MeldType::Escala),
                distinct_masks(candidates@),
                forall|a: int| 0 <= a < candidates@.len() ==> escala_shape(hand@, (#[trigger] candidates@[a]).card_indices@),
                c0.len() <= candidates@.len(),
                forall|a: int| 0 <= a < c0.len() ==> #[trigger] candidates@[a] == c0[a],
                forall|s2: Suit, b2: int, len: int, jp: int|
                    (exists|j: int| 0 <= j < k && suits@[j] == s2) && #[trigger] run_params_ok(hand@, s2, b2, len, jp)
                        ==> has_candidate(c0, run_positions(hand@, s2, b2, len, jp)),
                forall|b2: int, len: int, jp: int|
                    b2 < b && #[trigger] run_params_ok(hand@, suit, b2, len, jp)
                        ==> has_candidate(candidates@, run_positions(hand@, suit, b2, len, jp)),
            decreases 15 - b,
        {
            let ghost before = candidates@;
            push_runs_from(hand, suit, b, &jokers, &mut candidates);
            proof {
                assert forall|b2: int, len: int, jp: int|
                    b2 < b + 1 && #[trigger] run_params_ok(hand@, suit, b2, len, jp)
                        implies has_candidate(candidates@, run_positions(hand@, suit, b2, len, jp)) by {
                    if b2 < b {
                        lemma_has_candidate_extend(before, candidates@, run_positions(hand@, suit, b2, len, jp));
                    }
                }
            }
            b = b + 1;
        }
        proof {
            assert forall|s2: Suit, b2: int, len: int, jp: int|
                (exists|j: int| 0 <= j < k + 1 && suits@[j] == s2) && #[trigger] run_params_ok(hand@, s2, b2, len, jp)
                    implies has_candidate(candidates@, run_positions(hand@, s2, b2, len, jp)) by {
                if s2 != suit {
                    let j = choose|j: int| 0 <= j < k + 1 && suits@[j] == s2;
                    assert(j < k);
                    lemma_has_candidate_extend(c0, candidates@, run_positions(hand@, s2, b2, len, jp));
                } else {
                    assert(2 <= b2 && b2 <= 14);
                }
            }
        }
        k = k + 1;
    }
    proof {
        assert forall|suit: Suit, b: int, len: int, jp: int|
            #[trigger] run_params_ok(hand@, suit, b, len, jp) implies has_candidate(
                candidates@,
                run_positions(hand@, suit, b, len, jp),
            ) by {
            let j: int = match suit {
                Suit::Hearts => 0,
                Suit::Diamonds => 1,
                Suit::Clubs => 2,
                Suit::Spades => 3,
            };
            assert(suits@[j] == suit);
        }
        assert forall|a: int| 0 <= a < candidates@.len() implies (#[trigger] candidates@[a]).card_indices@.len() <= 13 by {
            let idx = candidates@[a].card_indices@;
            assert(escala_shape(hand@, idx));
            let (s, b, l, j) = choose|s: Suit, b: int, l: int, j: int|
                #[trigger] run_params_ok(hand@, s, b, l, j) && idx == run_positions(hand@, s, b, l, j);
        }
    }
    candidates
}

/// The cards of `hand` whose positions are not in `m`, in hand order.
pub open spec fn unused_cards(hand: Seq<Card>, m: u16) -> Seq<Card>
    decreases hand.len(),
{
    if hand.len() == 0 {
        Seq::empty()
    } else {
        let pre = unused_cards(hand.drop_last(), m);
        if mask_has(m, hand.len() - 1) {
            pre
        } else {
            pre.push(hand.last())
        }
    }
}

/// Two cards that could grow into a meld together: standard cards of the
/// same rank, or of the same suit one or two ranks apart.
pub open spec fn partial_pair(a: Card, b: Card) -> bool {
    &&& a is Standard
    &&& b is Standard
    &&& (card_rank(a) == card_rank(b) || (card_suit(a) == card_suit(b) && (card_rank(a)
        - card_rank(b) == 1 || card_rank(a) - card_rank(b) == 2 || card_rank(b) - card_rank(a)
        == 1 || card_rank(b) - card_rank(a) == 2)))
}

/// Number of `j` in `i+1 .. m` with `(s[i], s[j])` a partial pair.
pub open spec fn partial_row(s: Seq<Card>, i: int, m: int) -> nat
    decreases m - i,
{
    if m <= i + 1 {
        0
    } else {
        partial_row(s, i, m - 1) + if partial_pair(s[i], s[m - 1]) {
            1nat
        } else {
            0nat
        }
    }
}

/// Number of partial pairs `(s[i], s[j])` with `i < n` and `i < j`.
pub open spec fn partial_pairs_upto(s: Seq<Card>, n: int) -> nat
    decreases n,
{
    if n <= 0 {
        0
    } else {
        partial_pairs_upto(s, n - 1) + partial_row(s, n - 1, s.len() as int)
    }
}

/// Number of unordered pairs of cards in `s` that form a partial pair.
pub open spec fn partial_meld_count(s: Seq<Card>) -> nat {
    partial_pairs_upto(s, s.len() as int)
}

/// The score of the cards of `hand` left outside mask `m`.
pub open spec fn hand_score_of(hand: Seq<Card>, m: u16) -> (int, int) {
    (hand_points(unused_cards(hand, m)), -partial_meld_count(unused_cards(hand, m)))
}

proof fn lemma_partial_row_bound(s: Seq<Card>, i: int, m: int)
    ensures
        partial_row(s, i, m) <= if m > i { m - i } else { 0 },
    decreases m - i,
{
    if m > i + 1 {
        lemma_partial_row_bound(s, i, m - 1);
    }
}

/// Rough count of meld opportunities: pairs of the same rank, or of the
/// same suit one or two ranks apart.
fn count_partial_melds(cards: &[Card]) -> (r: usize)
    requires
        cards@.len() <= MAX_FINDER_HAND,
    ensures
        r == partial_meld_count(cards@),
        r <= 256,
{
    let n = cards.len();
    let mut count: usize = 0;
    let mut i: usize = 0;
    while i < n
        invariant
            n == cards@.len() <= 16,
            i <= n,
            count == partial_pairs_upto(cards@, i as int),
            count <= i * n,
        decreases n - i,
    {
        let mut j: usize = i + 1;
        let ghost base = count;
        proof {
            assert(i * n + n <= 16 * 16) by (nonlinear_arith)
                requires
                    i < n <= 16,
            ;
        }
        while j < n
            invariant
                n == cards@.len() <= 16,
                i < n,
                i < j,
                count == base + partial_row(cards@, i as int, j as int),
                j <= n,
                base + n <= 16 * 16,
                base <= i * n,
                partial_row(cards@, i as int, j as int) <= j,
            decreases n - j,
        {
            let pair = match (cards[i], cards[j]) {
                (
                    Card::Standard { suit: s1, value: v1 },
                    Card::Standard { suit: s2, value: v2 },
                ) => {
                    let r1 = v1.rank();
                    let r2 = v2.rank();
                    r1 == r2 || (s1 == s2 && (r1 == r2 + 1 || r1 == r2 + 2 || r2 == r1 + 1 || r2
                        == r1 + 2))
                },
                _ => false,
            };
            proof {
                assert(pair == partial_pair(cards@[i as int], cards@[j as int]));
            }
            if pair {
                count = count + 1;
            }
            j = j + 1;
        }
        proof {
            lemma_partial_row_bound(cards@, i as int, n as int);
            assert((i + 1) * n == i * n + n) by (nonlinear_arith);
        }
        i = i + 1;
    }
    proof {
        assert(i * n <= 256) by (nonlinear_arith)
            requires
                i == n <= 16,
        ;
    }
    count
}

/// Scores the cards NOT included in the bajada (lower is better).
pub fn score_remaining_hand(hand: &[Card], used_mask: HandMask) -> (r: HandScore)
    requires
        hand@.len() <= MAX_FINDER_HAND,
    ensures
        (r.remaining_points as int, r.neg_partial_melds as int) == hand_score_of(hand@, used_mask),
{
    let mut remaining_points: u32 = 0;
    let mut remaining: Vec<Card> = Vec::new();
    let mut i: usize = 0;
    while i < hand.len()
        invariant
            i <= hand@.len() <= 16,
            remaining@ == unused_cards(hand@.subrange(0, i as int), used_mask),
            remaining_points as int == hand_points(remaining@),
            remaining_points <= 50 * remaining@.len(),
            remaining@.len() <= i,
        decreases hand@.len() - i,
    {
        proof {
            assert(hand@.subrange(0, i as int + 1).drop_last() =~= hand@.subrange(0, i as int));
        }
        proof {
            let x = used_mask >> (i as u16);
            assert((x & 1u16) == 0u16 || (x & 1u16) == 1u16) by (bit_vector);
        }
        if (used_mask >> i as u16) & 1 == 0 {
            let c = hand[i];
            proof {
                assert(remaining@.push(c).drop_last() =~= remaining@);
            }
            remaining_points = remaining_points + c.points();
            remaining.push(c);
        }
        i = i + 1;
    }
    proof {
        assert(hand@.subrange(0, i as int) =~= hand@);
    }
    let partial = count_partial_melds(&remaining);
    HandScore { remaining_points, neg_partial_melds: -(partial as i32) }
}

/// No position of `a` is a position of `b`.
pub open spec fn disjoint_positions(a: Seq<usize>, b: Seq<usize>) -> bool {
    forall|i: int, j: int| 0 <= i < a.len() && 0 <= j < b.len() ==> a[i] != b[j]
}

/// The melds of `sol` pairwise share no hand position.
pub open spec fn pairwise_disjoint(sol: Seq<MeldCandidate>) -> bool {
    forall|a: int, b: int|
        0 <= a < sol.len() && 0 <= b < sol.len() && a != b ==> disjoint_positions(
            (#[trigger] sol[a]).card_indices@,
            (#[trigger] sol[b]).card_indices@,
        )
}

/// `sol` is a bajada of `hand` for the requirement: `req_trios` trios
/// followed by `req_escalas` escalas, each a well-formed candidate, no two
/// sharing a card.
pub open spec fn is_bajada(hand: Seq<Card>, sol: Seq<MeldCandidate>, req_trios: int, req_escalas: int) -> bool {
    &&& sol.len() == req_trios + req_escalas
    &&& forall|k: int|
        0 <= k < sol.len() ==> candidate_ok(#[trigger] sol[k], hand) && (sol[k].meld_type
            == MeldType::Trio <==> k < req_trios)
    &&& pairwise_disjoint(sol)
}

/// `used` has exactly the positions of the melds in `cur`.
pub open spec fn mask_of_melds(used: u16, cur: Seq<MeldCandidate>) -> bool {
    forall|i: int|
        0 <= i < 16 ==> (#[trigger] mask_has(used, i) <==> exists|k: int|
            0 <= k < cur.len() && cur[k].card_indices@.contains(i as usize))
}

/// A partial bajada: the first `chosen_trios` melds are trios, the rest escalas.
spec fn partial_bajada(hand: Seq<Card>, cur: Seq<MeldCandidate>, chosen_trios: int, req_trios: int) -> bool {
    &&& chosen_trios <= cur.len()
    &&& cur.len() > chosen_trios ==> chosen_trios == req_trios
    &&& forall|k: int|
        0 <= k < cur.len() ==> candidate_ok(#[trigger] cur[k], hand) && (cur[k].meld_type
            == MeldType::Trio <==> k < chosen_trios)
    &&& pairwise_disjoint(cur)
}

/// Lexicographic order on scores: fewer points first, then the more negative.
pub open spec fn score_lt(a: HandScore, b: HandScore) -> bool {
    a.remaining_points < b.remaining_points || (a.remaining_points == b.remaining_points
        && a.neg_partial_melds < b.neg_partial_melds)
}

/// The mask of all positions of the melds of `sol`.
pub open spec fn melds_mask(sol: Seq<MeldCandidate>) -> u16 {
    choose|m: u16| mask_of_melds(m, sol)
}

/// The score of the cards a bajada `sol` leaves in `hand`.
pub open spec fn bajada_score(hand: Seq<Card>, sol: Seq<MeldCandidate>) -> (int, int) {
    hand_score_of(hand, melds_mask(sol))
}

/// `a` is no worse than the score `p`.
pub open spec fn score_at_most(a: HandScore, p: (int, int)) -> bool {
    a.remaining_points < p.0 || (a.remaining_points == p.0 && a.neg_partial_melds <= p.1)
}

/// Scores as pairs, lexicographically.
pub open spec fn pair_lt(p: (int, int), q: (int, int)) -> bool {
    p.0 < q.0 || (p.0 == q.0 && p.1 < q.1)
}

proof fn lemma_bit_xor(a: u16, b: u16, i: u16)
    requires
        i < 16,
    ensures
        ((a ^ b) >> i) & 1u16 == 1u16 <==> (((a >> i) & 1u16 == 1u16) != ((b >> i) & 1u16 == 1u16)),
{
    assert(((a ^ b) >> i) & 1u16 == 1u16 <==> (((a >> i) & 1u16 == 1u16) != ((b >> i) & 1u16
        == 1u16))) by (bit_vector)
        requires
            i < 16,
    ;
}

/// Two masks with the same positions are the same mask.
proof fn lemma_mask_unique(m1: u16, m2: u16, sol: Seq<MeldCandidate>)
    requires
        mask_of_melds(m1, sol),
        mask_of_melds(m2, sol),
    ensures
        m1 == m2,
{
    if m1 != m2 {
        assert((m1 ^ m2) != 0u16) by (bit_vector)
            requires
                m1 != m2,
        ;
        lemma_nonzero_has_bit(m1 ^ m2);
        let i = choose|i: int| 0 <= i < 16 && mask_has(m1 ^ m2, i);
        lemma_bit_xor(m1, m2, i as u16);
        assert(mask_has(m1, i) == mask_has(m2, i));
    }
}

/// The score of `used` is the score of a bajada whose positions it holds.
proof fn lemma_bajada_score(hand: Seq<Card>, sol: Seq<MeldCandidate>, used: u16)
    requires
        mask_of_melds(used, sol),
    ensures
        bajada_score(hand, sol) == hand_score_of(hand, used),
{
    let m = melds_mask(sol);
    assert(mask_of_melds(m, sol));
    lemma_mask_unique(m, used, sol);
}

fn score_less(a: &HandScore, b: &HandScore) -> (r: bool)
    ensures
        r == score_lt(*a, *b),
{
    a.remaining_points < b.remaining_points || (a.remaining_points == b.remaining_points
        && a.neg_partial_melds < b.neg_partial_melds)
}

/// A fresh candidate with the same type, positions and mask as `c`.
fn copy_candidate(c: &MeldCandidate) -> (r: MeldCandidate)
    ensures
        r.meld_type == c.meld_type,
        r.card_indices@ == c.card_indices@,
        r.mask == c.mask,
{
    let card_indices = copy_range(&c.card_indices, 0, c.card_indices.len());
    proof {
        assert(c.card_indices@.subrange(0, c.card_indices@.len() as int) =~= c.card_indices@);
    }
    MeldCandidate { meld_type: c.meld_type, card_indices, mask: c.mask }
}

/// A fresh copy of each candidate of `cs`.
fn copy_candidates(cs: &Vec<MeldCandidate>, hand: Ghost<Seq<Card>>, req_trios: Ghost<int>, req_escalas: Ghost<int>) -> (r: Vec<MeldCandidate>)
    requires
        is_bajada(hand@, cs@, req_trios@, req_escalas@),
    ensures
        is_bajada(hand@, r@, req_trios@, req_escalas@),
        r@.len() == cs@.len(),
        forall|k: int| 0 <= k < cs@.len() ==> (#[trigger] r@[k]).card_indices@ == cs@[k].card_indices@,
{
    let mut r: Vec<MeldCandidate> = Vec::new();
    let mut k: usize = 0;
    while k < cs.len()
        invariant
            k <= cs@.len(),
            r@.len() == k,
            forall|j: int|
                0 <= j < k ==> (#[trigger] r@[j]).meld_type == cs@[j].meld_type
                    && r@[j].card_indices@ == cs@[j].card_indices@ && r@[j].mask == cs@[j].mask,
        decreases cs@.len() - k,
    {
        r.push(copy_candidate(&cs[k]));
        k = k + 1;
    }
    proof {
        assert forall|k: int| 0 <= k < r@.len() implies candidate_ok(#[trigger] r@[k], hand@) && (r@[k].meld_type
            == MeldType::Trio <==> k < req_trios@) by {
            assert(candidate_ok(cs@[k], hand@));
        }
        assert forall|a: int, b: int|
            0 <= a < r@.len() && 0 <= b < r@.len() && a != b implies disjoint_positions(
                (#[trigger] r@[a]).card_indices@,
                (#[trigger] r@[b]).card_indices@,
            ) by {
            assert(disjoint_positions(cs@[a].card_indices@, cs@[b].card_indices@));
        }
    }
    r
}

/// Adding `c` with no position in `used` keeps the melds disjoint and
/// `used | c.mask` their mask.
proof fn lemma_add_meld(hand: Seq<Card>, cur: Seq<MeldCandidate>, used: u16, c: MeldCandidate)
    requires
        mask_of_melds(used, cur),
        forall|k: int| 0 <= k < cur.len() ==> candidate_ok(#[trigger] cur[k], hand),
        candidate_ok(c, hand),
        pairwise_disjoint(cur),
        (c.mask & used) == 0u16,
    ensures
        mask_of_melds(used | c.mask, cur.push(c)),
        pairwise_disjoint(cur.push(c)),
{
    let nc = cur.push(c);
    assert forall|i: int| 0 <= i < 16 implies (#[trigger] mask_has(used | c.mask, i) <==> exists|k: int|
        0 <= k < nc.len() && nc[k].card_indices@.contains(i as usize)) by {
        lemma_mask_union(used, c.mask, i);
        if mask_has(used, i) {
            let k = choose|k: int| 0 <= k < cur.len() && cur[k].card_indices@.contains(i as usize);
            assert(nc[k] == cur[k]);
        }
        if mask_has(c.mask, i) {
            assert(nc[cur.len() as int] == c);
        }
        if exists|k: int| 0 <= k < nc.len() && nc[k].card_indices@.contains(i as usize) {
            let k = choose|k: int| 0 <= k < nc.len() && nc[k].card_indices@.contains(i as usize);
            if k < cur.len() {
                assert(nc[k] == cur[k]);
            }
        }
    }
    assert forall|a: int, b: int|
        0 <= a < nc.len() && 0 <= b < nc.len() && a != b implies disjoint_positions(
            (#[trigger] nc[a]).card_indices@,
            (#[trigger] nc[b]).card_indices@,
        ) by {
        if a < cur.len() && b < cur.len() {
            assert(nc[a] == cur[a] && nc[b] == cur[b]);
        } else {
            let o = if a < cur.len() { a } else { b };
            assert(nc[o] == cur[o]);
            assert forall|i: int, j: int| 0 <= i < cur[o].card_indices@.len() && 0 <= j < c.card_indices@.len() implies cur[o].card_indices@[i] != c.card_indices@[j] by {
                let p = cur[o].card_indices@[i];
                assert(candidate_ok(cur[o], hand));
                assert(p < 16);
                assert(cur[o].card_indices@.contains(p));
                assert(mask_has(used, p as int));
                if p == c.card_indices@[j] {
                    assert(c.card_indices@.contains(p));
                    assert(mask_has(c.mask, p as int));
                    lemma_mask_and(c.mask, used);
                }
            }
        }
    }
}


/// Total number of positions in the melds `cs[lo..hi]`.
pub open spec fn size_sum(cs: Seq<MeldCandidate>, lo: int, hi: int) -> int
    decreases hi - lo,
{
    if hi <= lo {
        0
    } else {
        size_sum(cs, lo, hi - 1) + cs[hi - 1].card_indices@.len()
    }
}

/// All positions of the melds `cs[0..hi]`, meld after meld.
pub open spec fn all_positions(cs: Seq<MeldCandidate>, hi: int) -> Seq<usize>
    decreases hi,
{
    if hi <= 0 {
        Seq::empty()
    } else {
        all_positions(cs, hi - 1) + cs[hi - 1].card_indices@
    }
}

proof fn lemma_size_sum_split(cs: Seq<MeldCandidate>, lo: int, mid: int, hi: int)
    requires
        lo <= mid <= hi,
    ensures
        size_sum(cs, lo, hi) == size_sum(cs, lo, mid) + size_sum(cs, mid, hi),
    decreases hi - mid,
{
    if hi > mid {
        lemma_size_sum_split(cs, lo, mid, hi - 1);
    }
}

proof fn lemma_size_sum_floor(cs: Seq<MeldCandidate>, lo: int, hi: int, m: int)
    requires
        lo <= hi,
        forall|k: int| lo <= k < hi ==> (#[trigger] cs[k]).card_indices@.len() >= m,
    ensures
        size_sum(cs, lo, hi) >= m * (hi - lo),
    decreases hi - lo,
{
    if hi > lo {
        lemma_size_sum_floor(cs, lo, hi - 1, m);
        assert(cs[hi - 1].card_indices@.len() >= m);
        assert(size_sum(cs, lo, hi) == size_sum(cs, lo, hi - 1) + cs[hi - 1].card_indices@.len());
        assert(m * (hi - lo) == m * (hi - 1 - lo) + m) by (nonlinear_arith);
    } else {
        assert(m * (hi - lo) == 0) by (nonlinear_arith)
            requires
                hi == lo,
        ;
    }
}

pub proof fn lemma_all_positions(cs: Seq<MeldCandidate>, hi: int, n: int)
    requires
        0 <= hi <= cs.len(),
        pairwise_disjoint(cs),
        forall|k: int| 0 <= k < cs.len() ==> positions_ok((#[trigger] cs[k]).card_indices@, n),
    ensures
        all_positions(cs, hi).len() == size_sum(cs, 0, hi),
        all_positions(cs, hi).no_duplicates(),
        forall|j: int| 0 <= j < all_positions(cs, hi).len() ==> #[trigger] all_positions(cs, hi)[j] < n,
        forall|x: usize| all_positions(cs, hi).contains(x) ==> exists|k: int| 0 <= k < hi && (#[trigger] cs[k]).card_indices@.contains(x),
    decreases hi,
{
    if hi > 0 {
        lemma_all_positions(cs, hi - 1, n);
        let a = all_positions(cs, hi - 1);
        let b = cs[hi - 1].card_indices@;
        let ab = a + b;
        assert(all_positions(cs, hi) == ab);
        assert(positions_ok(b, n));
        assert forall|i: int, j: int| 0 <= i < ab.len() && 0 <= j < ab.len() && i != j implies ab[i] != ab[j] by {
            if i < a.len() && j >= a.len() {
                assert(a.contains(ab[i]));
                let k = choose|k: int| 0 <= k < hi - 1 && (#[trigger] cs[k]).card_indices@.contains(ab[i]);
                let w = choose|w: int| 0 <= w < cs[k].card_indices@.len() && cs[k].card_indices@[w] == ab[i];
                assert(disjoint_positions(cs[k].card_indices@, cs[hi - 1].card_indices@));
                assert(ab[j] == b[j - a.len()]);
            } else if j < a.len() && i >= a.len() {
                assert(a.contains(ab[j]));
                let k = choose|k: int| 0 <= k < hi - 1 && (#[trigger] cs[k]).card_indices@.contains(ab[j]);
                let w = choose|w: int| 0 <= w < cs[k].card_indices@.len() && cs[k].card_indices@[w] == ab[j];
                assert(disjoint_positions(cs[k].card_indices@, cs[hi - 1].card_indices@));
                assert(ab[i] == b[i - a.len()]);
            } else if i >= a.len() {
                assert(ab[i] == b[i - a.len()] && ab[j] == b[j - a.len()]);
            }
        }
        assert forall|j: int| 0 <= j < ab.len() implies #[trigger] ab[j] < n by {
            if j >= a.len() {
                assert(ab[j] == b[j - a.len()]);
            }
        }
        assert forall|x: usize| ab.contains(x) implies exists|k: int| 0 <= k < hi && (#[trigger] cs[k]).card_indices@.contains(x) by {
            let w = choose|w: int| 0 <= w < ab.len() && ab[w] == x;
            if w < a.len() {
                assert(a.contains(x));
            } else {
                assert(b[w - a.len()] == x);
                assert(cs[hi - 1].card_indices@.contains(x));
            }
        }
    }
}

/// Pairwise disjoint melds inside a hand of `n` cards hold at most `n` positions.
proof fn lemma_disjoint_sizes(cs: Seq<MeldCandidate>, n: int)
    requires
        0 <= n,
        pairwise_disjoint(cs),
        forall|k: int| 0 <= k < cs.len() ==> positions_ok((#[trigger] cs[k]).card_indices@, n),
    ensures
        size_sum(cs, 0, cs.len() as int) <= n,
{
    lemma_all_positions(cs, cs.len() as int, n);
    let v = all_positions(cs, cs.len() as int);
    let w = v.map_values(|x: usize| x as int);
    assert(w.no_duplicates()) by {
        assert forall|i: int, j: int| 0 <= i < w.len() && 0 <= j < w.len() && i != j implies w[i] != w[j] by {
            assert(v[i] != v[j]);
        }
    }
    w.unique_seq_to_set();
    vstd::set_lib::lemma_int_range(0, n);
    assert(w.to_set().subset_of(vstd::set_lib::set_int_range(0, n))) by {
        assert forall|x: int| w.to_set().contains(x) implies vstd::set_lib::set_int_range(0, n).contains(x) by {
            let i = choose|i: int| 0 <= i < w.len() && w[i] == x;
            assert(v[i] < n);
        }
    }
    vstd::set_lib::lemma_len_subset(w.to_set(), vstd::set_lib::set_int_range(0, n));
}

/// `a` and `b` are melds of the same type over the same positions.
pub open spec fn same_meld(a: MeldCandidate, b: MeldCandidate) -> bool {
    a.meld_type == b.meld_type && a.card_indices@ == b.card_indices@
}

/// `sol` begins with the melds of `cur`.
pub open spec fn extends(sol: Seq<MeldCandidate>, cur: Seq<MeldCandidate>) -> bool {
    &&& cur.len() <= sol.len()
    &&& forall|k: int| 0 <= k < cur.len() ==> same_meld(#[trigger] sol[k], cur[k])
}

/// The trios of `sol` (its first `req_trios` melds) are among `ts` and its
/// escalas among `es`.
pub open spec fn from_lists(sol: Seq<MeldCandidate>, ts: Seq<MeldCandidate>, es: Seq<MeldCandidate>, req_trios: int) -> bool {
    forall|k: int|
        0 <= k < sol.len() ==> if k < req_trios {
            in_list(#[trigger] sol[k], ts)
        } else {
            in_list(sol[k], es)
        }
}

/// Some meld of `list` is `m`.
pub open spec fn in_list(m: MeldCandidate, list: Seq<MeldCandidate>) -> bool {
    exists|a: int| 0 <= a < list.len() && same_meld(#[trigger] list[a], m)
}

/// `sol` is a bajada drawn from the candidate lists that extends `cur`.
pub open spec fn completion(
    hand: Seq<Card>,
    ts: Seq<MeldCandidate>,
    es: Seq<MeldCandidate>,
    req_trios: int,
    req_escalas: int,
    cur: Seq<MeldCandidate>,
    sol: Seq<MeldCandidate>,
) -> bool {
    &&& is_bajada(hand, sol, req_trios, req_escalas)
    &&& from_lists(sol, ts, es, req_trios)
    &&& extends(sol, cur)
}

proof fn lemma_size_sum_same(sol: Seq<MeldCandidate>, cur: Seq<MeldCandidate>, hi: int)
    requires
        0 <= hi <= cur.len(),
        extends(sol, cur),
    ensures
        size_sum(sol, 0, hi) == size_sum(cur, 0, hi),
    decreases hi,
{
    if hi > 0 {
        lemma_size_sum_same(sol, cur, hi - 1);
        assert(same_meld(sol[hi - 1], cur[hi - 1]));
    }
}

/// A completion of `cur` has room for the melds still needed.
proof fn lemma_completion_fits(
    hand: Seq<Card>,
    ts: Seq<MeldCandidate>,
    es: Seq<MeldCandidate>,
    rt: int,
    re: int,
    cur: Seq<MeldCandidate>,
    sol: Seq<MeldCandidate>,
    ct: int,
    ce: int,
)
    requires
        completion(hand, ts, es, rt, re, cur, sol),
        0 <= ct <= rt,
        0 <= ce <= re,
        ce > 0 ==> ct == rt,
        cur.len() == ct + ce,
    ensures
        size_sum(cur, 0, cur.len() as int) + 3 * (rt - ct) + 4 * (re - ce) <= hand.len(),
{
    let n = hand.len() as int;
    assert forall|k: int| 0 <= k < sol.len() implies positions_ok((#[trigger] sol[k]).card_indices@, n) by {
        assert(candidate_ok(sol[k], hand));
    }
    lemma_disjoint_sizes(sol, n);
    let c = cur.len() as int;
    let total = sol.len() as int;
    lemma_size_sum_same(sol, cur, c);
    if ct < rt {
        lemma_size_sum_split(sol, 0, c, rt);
        lemma_size_sum_split(sol, 0, rt, total);
        assert forall|k: int| c <= k < rt implies (#[trigger] sol[k]).card_indices@.len() >= 3 by {
            assert(candidate_ok(sol[k], hand));
            assert(sol[k].meld_type == MeldType::Trio);
            assert(meld_cards(hand, sol[k].card_indices@).len() == sol[k].card_indices@.len());
        }
        lemma_size_sum_floor(sol, c, rt, 3);
        assert forall|k: int| rt <= k < total implies (#[trigger] sol[k]).card_indices@.len() >= 4 by {
            assert(candidate_ok(sol[k], hand));
            assert(sol[k].meld_type != MeldType::Trio);
            assert(meld_cards(hand, sol[k].card_indices@).len() == sol[k].card_indices@.len());
        }
        lemma_size_sum_floor(sol, rt, total, 4);
    } else {
        lemma_size_sum_split(sol, 0, c, total);
        assert forall|k: int| c <= k < total implies (#[trigger] sol[k]).card_indices@.len() >= 4 by {
            assert(candidate_ok(sol[k], hand));
            assert(sol[k].meld_type != MeldType::Trio);
            assert(meld_cards(hand, sol[k].card_indices@).len() == sol[k].card_indices@.len());
        }
        lemma_size_sum_floor(sol, c, total, 4);
    }
}

/// A candidate sharing a position with the melds of `cur` starts no completion.
proof fn lemma_overlap_blocks(
    hand: Seq<Card>,
    ts: Seq<MeldCandidate>,
    es: Seq<MeldCandidate>,
    rt: int,
    re: int,
    cur: Seq<MeldCandidate>,
    sol: Seq<MeldCandidate>,
    used: u16,
    c: MeldCandidate,
)
    requires
        completion(hand, ts, es, rt, re, cur, sol),
        cur.len() < sol.len(),
        same_meld(sol[cur.len() as int], c),
        candidate_ok(c, hand),
        mask_of_melds(used, cur),
    ensures
        (c.mask & used) == 0u16,
{
    if (c.mask & used) != 0u16 {
        lemma_mask_and(c.mask, used);
        let i = choose|i: int| 0 <= i < 16 && mask_has(c.mask, i) && mask_has(used, i);
        assert(c.card_indices@.contains(i as usize));
        let j = choose|j: int| 0 <= j < cur.len() && cur[j].card_indices@.contains(i as usize);
        let m = cur.len() as int;
        assert(same_meld(sol[j], cur[j]));
        assert(disjoint_positions(sol[j].card_indices@, sol[m].card_indices@));
        let x = choose|x: int| 0 <= x < cur[j].card_indices@.len() && cur[j].card_indices@[x] == i as usize;
        let y = choose|y: int| 0 <= y < c.card_indices@.len() && c.card_indices@[y] == i as usize;
        assert(sol[j].card_indices@[x] == sol[m].card_indices@[y]);
    }
}

/// Depth-first search for melds meeting the requirement: trios first, then
/// escalas, never reusing a hand position. Finds a bajada whenever one can
/// be drawn from the candidate lists.
fn solve(
    hand: &[Card],
    trios: &Vec<MeldCandidate>,
    escalas: &Vec<MeldCandidate>,
    chosen_trios: usize,
    chosen_escalas: usize,
    req_trios: usize,
    req_escalas: usize,
    used_mask: HandMask,
    used_count: usize,
    current: &mut Vec<MeldCandidate>,
    minimize_points: bool,
    best_solution: &mut Option<Vec<MeldCandidate>>,
    best_score: &mut HandScore,
)
    requires
        hand@.len() <= MAX_FINDER_HAND,
        all_candidates_ok(trios@, hand@, MeldType::Trio),
        all_candidates_ok(escalas@, hand@, MeldType::Escala),
        chosen_trios <= req_trios,
        chosen_escalas <= req_escalas,
        chosen_escalas > 0 ==> chosen_trios == req_trios,
        old(current)@.len() == chosen_trios + chosen_escalas,
        partial_bajada(hand@, old(current)@, chosen_trios as int, req_trios as int),
        mask_of_melds(used_mask, old(current)@),
        used_count == size_sum(old(current)@, 0, old(current)@.len() as int),
        *old(best_solution) matches Some(b) ==> is_bajada(hand@, b@, req_trios as int, req_escalas as int),
        *old(best_solution) matches Some(b) ==> from_lists(b@, trios@, escalas@, req_trios as int),
        from_lists(old(current)@, trios@, escalas@, req_trios as int),
        *old(best_solution) matches Some(b) ==> (old(best_score).remaining_points as int, old(best_score).neg_partial_melds as int)
            == bajada_score(hand@, b@),
    ensures
        final(current)@ == old(current)@,
        *final(best_solution) matches Some(b) ==> is_bajada(hand@, b@, req_trios as int, req_escalas as int),
        *final(best_solution) matches Some(b) ==> from_lists(b@, trios@, escalas@, req_trios as int),
        *final(best_solution) matches Some(b) ==> (final(best_score).remaining_points as int, final(best_score).neg_partial_melds as int)
            == bajada_score(hand@, b@),
        *old(best_solution) is Some ==> *final(best_solution) is Some,
        (exists|sol: Seq<MeldCandidate>|
            completion(hand@, trios@, escalas@, req_trios as int, req_escalas as int, old(current)@, sol))
            ==> *final(best_solution) is Some,
        minimize_points && *old(best_solution) is Some ==> !score_lt(*old(best_score), *final(best_score)),
        minimize_points ==> forall|sol: Seq<MeldCandidate>|
            #[trigger] completion(hand@, trios@, escalas@, req_trios as int, req_escalas as int, old(current)@, sol)
                ==> score_at_most(*final(best_score), bajada_score(hand@, sol)),
    decreases req_trios - chosen_trios + req_escalas - chosen_escalas,
{
    let ghost cur = current@;
    let ghost rt = req_trios as int;
    let ghost re = req_escalas as int;
    if chosen_trios == req_trios && chosen_escalas == req_escalas {
        let score = score_remaining_hand(hand, used_mask);
        proof {
            assert forall|sol: Seq<MeldCandidate>|
                #[trigger] completion(hand@, trios@, escalas@, rt, re, cur, sol) implies bajada_score(hand@, sol)
                == hand_score_of(hand@, used_mask) by {
                assert(mask_of_melds(used_mask, sol)) by {
                    assert forall|i: int| 0 <= i < 16 implies (#[trigger] mask_has(used_mask, i) <==> exists|k: int|
                        0 <= k < sol.len() && sol[k].card_indices@.contains(i as usize)) by {
                        if mask_has(used_mask, i) {
                            let k = choose|k: int| 0 <= k < cur.len() && cur[k].card_indices@.contains(i as usize);
                            assert(same_meld(sol[k], cur[k]));
                        }
                        if exists|k: int| 0 <= k < sol.len() && sol[k].card_indices@.contains(i as usize) {
                            let k = choose|k: int| 0 <= k < sol.len() && sol[k].card_indices@.contains(i as usize);
                            assert(same_meld(sol[k], cur[k]));
                        }
                    }
                }
                lemma_bajada_score(hand@, sol, used_mask);
            }
        }
        if !minimize_points || best_solution.is_none() || score_less(&score, best_score) {
            let sol = copy_candidates(current, Ghost(hand@), Ghost(req_trios as int), Ghost(req_escalas as int));
            proof {
                assert forall|k: int| 0 <= k < sol@.len() implies (if k < rt {
                    in_list(#[trigger] sol@[k], trios@)
                } else {
                    in_list(sol@[k], escalas@)
                }) by {
                    assert(same_meld(sol@[k], cur[k]));
                    if k < rt {
                        assert(in_list(cur[k], trios@));
                        let a = choose|a: int| 0 <= a < trios@.len() && same_meld(#[trigger] trios@[a], cur[k]);
                        assert(same_meld(trios@[a], sol@[k]));
                    } else {
                        assert(in_list(cur[k], escalas@));
                        let a = choose|a: int| 0 <= a < escalas@.len() && same_meld(#[trigger] escalas@[a], cur[k]);
                        assert(same_meld(escalas@[a], sol@[k]));
                    }
                }
                assert(mask_of_melds(used_mask, sol@)) by {
                    assert forall|i: int| 0 <= i < 16 implies (#[trigger] mask_has(used_mask, i) <==> exists|k: int|
                        0 <= k < sol@.len() && sol@[k].card_indices@.contains(i as usize)) by {
                        if mask_has(used_mask, i) {
                            let k = choose|k: int| 0 <= k < cur.len() && cur[k].card_indices@.contains(i as usize);
                            assert(sol@[k].card_indices@ == cur[k].card_indices@);
                        }
                        if exists|k: int| 0 <= k < sol@.len() && sol@[k].card_indices@.contains(i as usize) {
                            let k = choose|k: int| 0 <= k < sol@.len() && sol@[k].card_indices@.contains(i as usize);
                            assert(sol@[k].card_indices@ == cur[k].card_indices@);
                        }
                    }
                }
                lemma_bajada_score(hand@, sol@, used_mask);
            }
            *best_solution = Some(sol);
            *best_score = score;
        }
        return;
    }
    if !minimize_points && best_solution.is_some() {
        return;
    }
    proof {
        assert forall|k: int| 0 <= k < cur.len() implies positions_ok((#[trigger] cur[k]).card_indices@, hand@.len() as int) by {
            assert(candidate_ok(cur[k], hand@));
        }
        lemma_disjoint_sizes(cur, hand@.len() as int);
    }
    // prune: too few free cards for the melds still needed
    let remaining_cards = hand.len() - used_count;
    let needed = (req_trios - chosen_trios) as u128 * 3 + (req_escalas - chosen_escalas) as u128
        * 4;
    if (remaining_cards as u128) < needed {
        proof {
            if exists|sol: Seq<MeldCandidate>| completion(hand@, trios@, escalas@, rt, re, cur, sol) {
                let sol = choose|sol: Seq<MeldCandidate>| completion(hand@, trios@, escalas@, rt, re, cur, sol);
                lemma_completion_fits(hand@, trios@, escalas@, rt, re, cur, sol, chosen_trios as int, chosen_escalas as int);
            }
        }
        return;
    }
    let to_trio = chosen_trios < req_trios;
    let list = if to_trio { trios } else { escalas };
    let ghost ty = if to_trio { MeldType::Trio } else { MeldType::Escala };
    let next_trios = if to_trio { chosen_trios + 1 } else { chosen_trios };
    let next_escalas = if to_trio { chosen_escalas } else { chosen_escalas + 1 };
    let mut k: usize = 0;
    while k < list.len()
        invariant
            hand@.len() <= MAX_FINDER_HAND,
            all_candidates_ok(trios@, hand@, MeldType::Trio),
            all_candidates_ok(escalas@, hand@, MeldType::Escala),
            list@ == if to_trio { trios@ } else { escalas@ },
            ty == if to_trio { MeldType::Trio } else { MeldType::Escala },
            to_trio == (chosen_trios < req_trios),
            chosen_trios <= req_trios,
            chosen_escalas <= req_escalas,
            !(chosen_trios == req_trios && chosen_escalas == req_escalas),
            chosen_escalas > 0 ==> chosen_trios == req_trios,
            next_trios == if to_trio { chosen_trios + 1 } else { chosen_trios as int },
            next_escalas == if to_trio { chosen_escalas as int } else { chosen_escalas + 1 },
            cur == old(current)@,
            current@ == cur,
            cur.len() == chosen_trios + chosen_escalas,
            partial_bajada(hand@, cur, chosen_trios as int, req_trios as int),
            mask_of_melds(used_mask, cur),
            used_count == size_sum(cur, 0, cur.len() as int),
            used_count <= hand@.len(),
            rt == req_trios,
            re == req_escalas,
            *best_solution matches Some(b) ==> is_bajada(hand@, b@, req_trios as int, req_escalas as int),
            *best_solution matches Some(b) ==> from_lists(b@, trios@, escalas@, req_trios as int),
            from_lists(cur, trios@, escalas@, req_trios as int),
            *old(best_solution) is Some ==> *best_solution is Some,
            forall|a: int|
                0 <= a < k && (exists|sol: Seq<MeldCandidate>|
                    completion(hand@, trios@, escalas@, rt, re, cur, sol) && same_meld(
                        sol[cur.len() as int],
                        #[trigger] list@[a],
                    )) ==> *best_solution is Some,
            *best_solution matches Some(b) ==> (best_score.remaining_points as int, best_score.neg_partial_melds as int)
                == bajada_score(hand@, b@),
            minimize_points && *old(best_solution) is Some ==> !score_lt(*old(best_score), *best_score),
            minimize_points ==> forall|sol: Seq<MeldCandidate>|
                #[trigger] completion(hand@, trios@, escalas@, rt, re, cur, sol) && (exists|a: int|
                    0 <= a < k && same_meld(sol[cur.len() as int], #[trigger] list@[a]))
                    ==> score_at_most(*best_score, bajada_score(hand@, sol)),
        decreases list@.len() - k,
    {
        if (list[k].mask & used_mask) == 0 {
            let c = copy_candidate(&list[k]);
            proof {
                assert(candidate_ok(list@[k as int], hand@));
                lemma_add_meld(hand@, current@, used_mask, c);
                let nc = current@.push(c);
                assert forall|j: int| 0 <= j < nc.len() implies candidate_ok(#[trigger] nc[j], hand@) && (nc[j].meld_type
                    == MeldType::Trio <==> j < next_trios) by {
                    if j < current@.len() {
                        assert(nc[j] == current@[j]);
                    }
                }
                assert(size_sum(nc, 0, nc.len() as int) == size_sum(cur, 0, cur.len() as int) + c.card_indices@.len()) by {
                    lemma_size_sum_same(nc, cur, cur.len() as int);
                }
                assert(c.card_indices@.len() <= 16) by {
                    assert(positions_ok(c.card_indices@, hand@.len() as int));
                    let w = c.card_indices@.map_values(|x: usize| x as int);
                    assert(w.no_duplicates()) by {
                        assert forall|i: int, j: int| 0 <= i < w.len() && 0 <= j < w.len() && i != j implies w[i] != w[j] by {
                            assert(c.card_indices@[i] != c.card_indices@[j]);
                        }
                    }
                    w.unique_seq_to_set();
                    vstd::set_lib::lemma_int_range(0, hand@.len() as int);
                    assert(w.to_set().subset_of(vstd::set_lib::set_int_range(0, hand@.len() as int)));
                    vstd::set_lib::lemma_len_subset(w.to_set(), vstd::set_lib::set_int_range(0, hand@.len() as int));
                }
            }
            proof {
                let nc = cur.push(c);
                assert forall|j: int| 0 <= j < nc.len() implies (if j < rt {
                    in_list(#[trigger] nc[j], trios@)
                } else {
                    in_list(nc[j], escalas@)
                }) by {
                    if j < cur.len() {
                        assert(nc[j] == cur[j]);
                    } else {
                        assert(same_meld(list@[k as int], c));
                    }
                }
            }
            let new_mask = used_mask | c.mask;
            let new_count = used_count + c.card_indices.len();
            let ghost cc = c;
            let ghost score_before = *best_score;
            let ghost had_best = *best_solution is Some;
            current.push(c);
            solve(
                hand,
                trios,
                escalas,
                next_trios,
                next_escalas,
                req_trios,
                req_escalas,
                new_mask,
                new_count,
                current,
                minimize_points,
                best_solution,
                best_score,
            );
            current.pop();
            proof {
                assert(current@ =~= cur);
                if exists|sol: Seq<MeldCandidate>|
                    completion(hand@, trios@, escalas@, rt, re, cur, sol) && same_meld(sol[cur.len() as int], list@[k as int]) {
                    let sol = choose|sol: Seq<MeldCandidate>|
                        completion(hand@, trios@, escalas@, rt, re, cur, sol) && same_meld(sol[cur.len() as int], list@[k as int]);
                    let nc = cur.push(cc);
                    assert(extends(sol, nc)) by {
                        assert forall|j: int| 0 <= j < nc.len() implies same_meld(#[trigger] sol[j], nc[j]) by {
                            if j < cur.len() {
                                assert(nc[j] == cur[j]);
                            }
                        }
                    }
                    assert(completion(hand@, trios@, escalas@, rt, re, nc, sol));
                }
                if minimize_points {
                    assert forall|sol: Seq<MeldCandidate>|
                        #[trigger] completion(hand@, trios@, escalas@, rt, re, cur, sol) && (exists|a: int|
                            0 <= a < k + 1 && same_meld(sol[cur.len() as int], #[trigger] list@[a]))
                            implies score_at_most(*best_score, bajada_score(hand@, sol)) by {
                        let a = choose|a: int| 0 <= a < k + 1 && same_meld(sol[cur.len() as int], #[trigger] list@[a]);
                        if a < k {
                            assert(had_best);
                            assert(score_at_most(score_before, bajada_score(hand@, sol)));
                        } else {
                            let nc = cur.push(cc);
                            assert(extends(sol, nc)) by {
                                assert forall|j: int| 0 <= j < nc.len() implies same_meld(#[trigger] sol[j], nc[j]) by {
                                    if j < cur.len() {
                                        assert(nc[j] == cur[j]);
                                    }
                                }
                            }
                            assert(completion(hand@, trios@, escalas@, rt, re, nc, sol));
                        }
                    }
                }
            }
            if !minimize_points && best_solution.is_some() {
                return;
            }
        } else {
            proof {
                if exists|sol: Seq<MeldCandidate>|
                    completion(hand@, trios@, escalas@, rt, re, cur, sol) && same_meld(sol[cur.len() as int], list@[k as int]) {
                    let sol = choose|sol: Seq<MeldCandidate>|
                        completion(hand@, trios@, escalas@, rt, re, cur, sol) && same_meld(sol[cur.len() as int], list@[k as int]);
                    assert(candidate_ok(list@[k as int], hand@));
                    lemma_overlap_blocks(hand@, trios@, escalas@, rt, re, cur, sol, used_mask, list@[k as int]);
                }
                if minimize_points {
                    assert forall|sol: Seq<MeldCandidate>|
                        #[trigger] completion(hand@, trios@, escalas@, rt, re, cur, sol) && (exists|a: int|
                            0 <= a < k + 1 && same_meld(sol[cur.len() as int], #[trigger] list@[a]))
                            implies score_at_most(*best_score, bajada_score(hand@, sol)) by {
                        let a = choose|a: int| 0 <= a < k + 1 && same_meld(sol[cur.len() as int], #[trigger] list@[a]);
                        if a == k {
                            assert(candidate_ok(list@[k as int], hand@));
                            lemma_overlap_blocks(hand@, trios@, escalas@, rt, re, cur, sol, used_mask, list@[k as int]);
                        }
                    }
                }
            }
        }
        k = k + 1;
    }
    proof {
        if exists|sol: Seq<MeldCandidate>| completion(hand@, trios@, escalas@, rt, re, cur, sol) {
            let sol = choose|sol: Seq<MeldCandidate>| completion(hand@, trios@, escalas@, rt, re, cur, sol);
            let m = cur.len() as int;
            assert(m < sol.len());
            assert(in_list(sol[m], list@));
            let a = choose|a: int| 0 <= a < list@.len() && same_meld(#[trigger] list@[a], sol[m]);
            assert(same_meld(sol[m], list@[a]));
        }
        if minimize_points {
            assert forall|sol: Seq<MeldCandidate>|
                #[trigger] completion(hand@, trios@, escalas@, rt, re, cur, sol) implies score_at_most(
                    *best_score,
                    bajada_score(hand@, sol),
                ) by {
                let m = cur.len() as int;
                assert(in_list(sol[m], list@));
                let a = choose|a: int| 0 <= a < list@.len() && same_meld(#[trigger] list@[a], sol[m]);
                assert(same_meld(sol[m], list@[a]));
            }
        }
    }
}

/// `sol` is a bajada whose trios have the trio enumeration's shapes and
/// whose escalas have the escala enumeration's shapes.
pub open spec fn shaped_bajada(hand: Seq<Card>, sol: Seq<MeldCandidate>, req_trios: int, req_escalas: int) -> bool {
    &&& is_bajada(hand, sol, req_trios, req_escalas)
    &&& forall|k: int|
        0 <= k < sol.len() ==> if k < req_trios {
            trio_shape(hand, (#[trigger] sol[k]).card_indices@)
        } else {
            escala_shape(hand, sol[k].card_indices@)
        }
}

/// A shaped bajada is drawn from complete candidate lists.
proof fn lemma_shapes_listed(
    hand: Seq<Card>,
    trios: Seq<MeldCandidate>,
    escalas: Seq<MeldCandidate>,
    req_trios: int,
    req_escalas: int,
    sol: Seq<MeldCandidate>,
)
    requires
        all_candidates_ok(trios, hand, MeldType::Trio),
        all_candidates_ok(escalas, hand, MeldType::Escala),
        forall|rank: int, s: int, e: int|
            2 <= rank <= 14 && 0 <= s && s + 3 <= e <= positions_of_rank(hand, rank).len()
                ==> has_candidate(trios, #[trigger] positions_of_rank(hand, rank).subrange(s, e)),
        forall|rank: int, i: int, k: int, j: int|
            2 <= rank <= 14 && 0 <= i < k < positions_of_rank(hand, rank).len() && 0 <= j
                < positions_of_jokers(hand).len() ==> has_candidate(
                trios,
                #[trigger] seq![positions_of_rank(hand, rank)[i], positions_of_rank(hand, rank)[k], positions_of_jokers(hand)[j]],
            ),
        forall|suit: Suit, b: int, len: int, jp: int|
            #[trigger] run_params_ok(hand, suit, b, len, jp) ==> has_candidate(
                escalas,
                run_positions(hand, suit, b, len, jp),
            ),
        shaped_bajada(hand, sol, req_trios, req_escalas),
    ensures
        completion(hand, trios, escalas, req_trios, req_escalas, Seq::empty(), sol),
{
    assert forall|k: int| 0 <= k < sol.len() implies (if k < req_trios {
        in_list(#[trigger] sol[k], trios)
    } else {
        in_list(sol[k], escalas)
    }) by {
        let idx = sol[k].card_indices@;
        assert(candidate_ok(sol[k], hand));
        if k < req_trios {
            assert(trio_shape(hand, idx));
            let rank = choose|rank: int| 2 <= rank <= 14 && (window_trio(hand, idx, rank) || joker_trio(hand, idx, rank));
            if window_trio(hand, idx, rank) {
                let ps = positions_of_rank(hand, rank);
                let (s0, e0) = choose|s0: int, e0: int| 0 <= s0 && s0 + 3 <= e0 <= ps.len() && idx == ps.subrange(s0, e0);
                assert(has_candidate(trios, ps.subrange(s0, e0)));
            } else {
                let ps = positions_of_rank(hand, rank);
                let js = positions_of_jokers(hand);
                let (i0, k0, j0) = choose|i0: int, k0: int, j0: int|
                    0 <= i0 < k0 < ps.len() && 0 <= j0 < js.len() && idx == seq![ps[i0], ps[k0], js[j0]];
                assert(has_candidate(trios, seq![ps[i0], ps[k0], js[j0]]));
            }
            let a = choose|a: int| 0 <= a < trios.len() && (#[trigger] trios[a]).card_indices@ == idx;
            assert(candidate_ok(trios[a], hand));
            assert(sol[k].meld_type == MeldType::Trio);
            assert(same_meld(trios[a], sol[k]));
        } else {
            assert(escala_shape(hand, idx));
            let (su, b0, l0, j0) = choose|su: Suit, b0: int, l0: int, j0: int|
                #[trigger] run_params_ok(hand, su, b0, l0, j0) && idx == run_positions(hand, su, b0, l0, j0);
            assert(has_candidate(escalas, run_positions(hand, su, b0, l0, j0)));
            let a = choose|a: int| 0 <= a < escalas.len() && (#[trigger] escalas[a]).card_indices@ == idx;
            assert(candidate_ok(escalas[a], hand));
            assert(sol[k].meld_type != MeldType::Trio);
            assert(same_meld(escalas[a], sol[k]));
        }
    }
}

/// Finds melds of `hand` meeting the requirement of `req_trios` trios and
/// `req_escalas` escalas, no card used twice. Without `minimize_points`
/// the first combination found is returned; with it, the one whose unused
/// cards score lowest (fewest points, then most partial pairs). None is
/// returned only when the hand holds no bajada made of melds of the
/// enumerated shapes, and with `minimize_points` no such bajada scores
/// lower than the one returned.
pub fn find_best_bajada(
    hand: &[Card],
    req_trios: usize,
    req_escalas: usize,
    minimize_points: bool,
) -> (r: Option<Vec<MeldCandidate>>)
    requires
        hand@.len() <= MAX_FINDER_HAND,
    ensures
        r matches Some(sol) ==> is_bajada(hand@, sol@, req_trios as int, req_escalas as int),
        r matches Some(sol) ==> shaped_bajada(hand@, sol@, req_trios as int, req_escalas as int),
        r is None ==> forall|sol: Seq<MeldCandidate>|
            !(#[trigger] shaped_bajada(hand@, sol, req_trios as int, req_escalas as int)),
        r matches Some(best) ==> (minimize_points ==> forall|sol: Seq<MeldCandidate>|
            #[trigger] shaped_bajada(hand@, sol, req_trios as int, req_escalas as int) ==> !pair_lt(
                bajada_score(hand@, sol),
                bajada_score(hand@, best@),
            )),
{
    let trios = find_all_trio_candidates(hand);
    let escalas = find_all_escala_candidates(hand);
    let mut best_solution: Option<Vec<MeldCandidate>> = None;
    let mut best_score = HandScore { remaining_points: u32::MAX, neg_partial_melds: i32::MIN };
    let mut current: Vec<MeldCandidate> = Vec::new();
    proof {
        assert forall|i: int| 0 <= i < 16 implies !mask_has(0u16, i) by {
            lemma_bit_zero(i as u16);
        }
    }
    solve(
        hand,
        &trios,
        &escalas,
        0,
        0,
        req_trios,
        req_escalas,
        0u16,
        0,
        &mut current,
        minimize_points,
        &mut best_solution,
        &mut best_score,
    );
    proof {
        if best_solution is Some {
            let b = best_solution->Some_0@;
            assert forall|k: int| 0 <= k < b.len() implies (if k < req_trios as int {
                trio_shape(hand@, (#[trigger] b[k]).card_indices@)
            } else {
                escala_shape(hand@, b[k].card_indices@)
            }) by {
                if k < req_trios as int {
                    assert(in_list(b[k], trios@));
                    let a = choose|a: int| 0 <= a < trios@.len() && same_meld(#[trigger] trios@[a], b[k]);
                    assert(trio_shape(hand@, trios@[a].card_indices@));
                } else {
                    assert(in_list(b[k], escalas@));
                    let a = choose|a: int| 0 <= a < escalas@.len() && same_meld(#[trigger] escalas@[a], b[k]);
                    assert(escala_shape(hand@, escalas@[a].card_indices@));
                }
            }
        }
        assert forall|sol: Seq<MeldCandidate>|
            #[trigger] shaped_bajada(hand@, sol, req_trios as int, req_escalas as int) implies completion(
            hand@,
            trios@,
            escalas@,
            req_trios as int,
            req_escalas as int,
            Seq::empty(),
            sol,
        ) by {
            lemma_shapes_listed(hand@, trios@, escalas@, req_trios as int, req_escalas as int, sol);
        }
    }
    best_solution
}

/// Where a shed card goes on a meld.
#[derive(Debug, Clone, Copy, PartialEq, Eq, Structural)]
pub enum ShedPosition {
    /// Prepended to an escala.
    ExtendLeft,
    /// Appended to an escala.
    ExtendRight,
    /// Added to a trio.
    TrioExtension,
}

/// A shed a player could make: the hand card, and the meld it extends.
#[derive(Debug, Clone)]
pub struct ShedAction {
    pub hand_index: usize,
    pub target_player_id: String,
    pub target_combo_idx: usize,
    pub position: ShedPosition,
}


/// Rank of the standard cards of a trio.
pub open spec fn trio_rank(s: Seq<Card>) -> int {
    card_rank(s[some_standard(s)])
}

/// Suit of the standard cards of an escala.
pub open spec fn escala_suit(s: Seq<Card>) -> Suit {
    card_suit(s[some_standard(s)])
}

/// Where `card` can be shed onto `meld`, if it can. A trio takes a card of
/// its rank, or a joker when it has none. An escala takes a card of its
/// suit one rank below its first place or one above its last, or a joker
/// (on the right) when it has none and does not end with the Ace. Anything else takes nothing.
pub open spec fn shed_position(card: Card, meld: Seq<Card>) -> Option<ShedPosition> {
    if meld.len() == 0 {
        None
    } else if is_trio(meld) {
        if card is Joker {
            if joker_count(meld) >= 1 {
                None
            } else {
                Some(ShedPosition::TrioExtension)
            }
        } else if card_rank(card) == trio_rank(meld) {
            Some(ShedPosition::TrioExtension)
        } else {
            None
        }
    } else if is_escala(meld) {
        if card is Joker {
            if joker_count(meld) == 0 && escala_base(meld) + meld.len() <= 14 {
                Some(ShedPosition::ExtendRight)
            } else {
                None
            }
        } else if card_suit(card) != escala_suit(meld) {
            None
        } else if card_rank(card) + 1 == escala_base(meld) {
            Some(ShedPosition::ExtendLeft)
        } else if card_rank(card) == escala_base(meld) + meld.len() {
            Some(ShedPosition::ExtendRight)
        } else {
            None
        }
    } else {
        None
    }
}

/// The meld after `card` is shed onto it at `pos`.
pub open spec fn shed_onto(card: Card, meld: Seq<Card>, pos: ShedPosition) -> Seq<Card> {
    match pos {
        ShedPosition::ExtendLeft => seq![card] + meld,
        _ => meld.push(card),
    }
}

proof fn lemma_has_standard(s: Seq<Card>)
    requires
        joker_count(s) < s.len(),
    ensures
        exists|i: int| 0 <= i < s.len() && s[i] is Standard,
{
    if forall|i: int| 0 <= i < s.len() ==> s[i] is Joker {
        lemma_joker_count_all(s);
    }
}

/// A card shed onto a trio or escala leaves a trio or escala.
pub proof fn lemma_shed_keeps_meld_valid(card: Card, meld: Seq<Card>)
    requires
        is_trio(meld) || is_escala(meld),
        shed_position(card, meld) is Some,
    ensures
        is_trio(shed_onto(card, meld, shed_position(card, meld)->Some_0))
            || is_escala(shed_onto(card, meld, shed_position(card, meld)->Some_0)),
{
    lemma_has_standard(meld);
    let pos = shed_position(card, meld)->Some_0;
    let r = shed_onto(card, meld, pos);
    let f = some_standard(meld);
    if is_trio(meld) {
        lemma_joker_count_push(meld, card);
        assert forall|i: int, j: int|
            0 <= i < r.len() && 0 <= j < r.len() && r[i] is Standard && r[j] is Standard implies card_rank(
            #[trigger] r[i]) == card_rank(#[trigger] r[j]) by {
            assert(card_rank(meld[f]) == trio_rank(meld));
            if i < meld.len() {
                assert(r[i] == meld[i]);
            }
            if j < meld.len() {
                assert(r[j] == meld[j]);
            }
        }
        assert(is_trio(r));
    } else {
        if pos == ShedPosition::ExtendLeft {
            lemma_joker_count_prepend(card, meld);
            assert(r[0] == card);
            assert forall|k: int| 0 <= k < r.len() && (#[trigger] r[k]) is Standard implies card_rank(r[k]) - k == escala_base(meld) - 1 by {
                assert(card_rank(meld[f]) - f == escala_base(meld));
                if k > 0 {
                    assert(r[k] == meld[k - 1]);
                }
            }
            lemma_escala_base_is(r, escala_base(meld) - 1);
            assert forall|i: int, j: int|
                0 <= i < r.len() && 0 <= j < r.len() && r[i] is Standard && r[j] is Standard implies card_rank(
                #[trigger] r[j]) - card_rank(#[trigger] r[i]) == j - i && card_suit(r[i]) == card_suit(r[j]) by {
                assert(card_rank(meld[f]) - f == escala_base(meld));
                if i > 0 {
                    assert(r[i] == meld[i - 1]);
                }
                if j > 0 {
                    assert(r[j] == meld[j - 1]);
                }
            }
        } else {
            lemma_joker_count_push(meld, card);
            assert(r[meld.len() as int] == card);
            assert forall|k: int| 0 <= k < r.len() && (#[trigger] r[k]) is Standard implies card_rank(r[k]) - k == escala_base(meld) by {
                assert(card_rank(meld[f]) - f == escala_base(meld));
                if k < meld.len() {
                    assert(r[k] == meld[k]);
                }
            }
            assert(r[f] == meld[f]);
            lemma_escala_base_is(r, escala_base(meld));
            assert forall|i: int, j: int|
                0 <= i < r.len() && 0 <= j < r.len() && r[i] is Standard && r[j] is Standard implies card_rank(
                #[trigger] r[j]) - card_rank(#[trigger] r[i]) == j - i && card_suit(r[i]) == card_suit(r[j]) by {
                assert(card_rank(meld[f]) - f == escala_base(meld));
                if i < meld.len() {
                    assert(r[i] == meld[i]);
                }
                if j < meld.len() {
                    assert(r[j] == meld[j]);
                }
            }
        }
        assert(is_escala(r));
    }
}

/// Whether a meld on the table is a trio.
fn is_meld_trio(meld: &[Card]) -> (r: bool)
    ensures
        r == is_trio(meld@),
{
    is_valid_trio(meld)
}

/// Whether a meld on the table is an escala.
fn is_meld_escala(meld: &[Card]) -> (r: bool)
    ensures
        r == is_escala(meld@),
{
    is_valid_escala(meld)
}

/// Rank of the escala's first place: its first standard card's rank less
/// the jokers before it.
fn escala_first_value(meld: &[Card]) -> (r: Option<u8>)
    requires
        is_escala(meld@),
    ensures
        r == Some(escala_base(meld@) as u8),
        1 <= escala_base(meld@) <= 14,
{
    proof {
        lemma_has_standard(meld@);
    }
    let mut offset: u8 = 0;
    let mut i: usize = 0;
    while i < meld.len()
        invariant
            is_escala(meld@),
            i <= meld@.len(),
            offset == i,
            offset <= 1,
            forall|k: int| 0 <= k < i ==> meld@[k] is Joker,
        decreases meld@.len() - i,
    {
        match meld[i] {
            Card::Standard { value, .. } => {
                proof {
                    let f = some_standard(meld@);
                    assert(card_rank(meld@[f]) - card_rank(meld@[i as int]) == f - i);
                    crate::card::lemma_rank_injective(value, value);
                }
                return Some(value.rank() - offset);
            },
            Card::Joker => {
                proof {
                    if i >= 1 {
                        assert(meld@[0] is Joker && meld@[1] is Joker);
                        let pre = meld@.subrange(0, 2);
                        assert forall|k: int| 0 <= k < pre.len() implies pre[k] is Joker by {
                            assert(pre[k] == meld@[k]);
                        }
                        lemma_joker_count_all(pre);
                        lemma_joker_count_prefix(meld@, 2);
                    }
                }
                offset = offset + 1;
            },
        }
        i = i + 1;
    }
    proof {
        let f = some_standard(meld@);
        assert(meld@[f] is Joker);
    }
    None
}

pub proof fn lemma_joker_count_prefix(s: Seq<Card>, n: int)
    requires
        0 <= n <= s.len(),
    ensures
        joker_count(s.subrange(0, n)) <= joker_count(s),
    decreases s.len() - n,
{
    if n < s.len() {
        assert(s.subrange(0, n + 1).drop_last() =~= s.subrange(0, n));
        lemma_joker_count_prefix(s, n + 1);
    } else {
        assert(s.subrange(0, n) =~= s);
    }
}

/// Rank of the escala's last place: its last standard card's rank plus
/// the jokers after it.
fn escala_last_value(meld: &[Card]) -> (r: Option<u8>)
    requires
        is_escala(meld@),
    ensures
        r == Some((escala_base(meld@) + meld@.len() - 1) as u8),
        escala_base(meld@) + meld@.len() - 1 <= 15,
{
    proof {
        lemma_has_standard(meld@);
    }
    let mut offset: u8 = 0;
    let mut i: usize = meld.len();
    while i > 0
        invariant
            is_escala(meld@),
            i <= meld@.len(),
            offset == meld@.len() - i,
            offset <= 1,
            forall|k: int| i <= k < meld@.len() ==> meld@[k] is Joker,
        decreases i,
    {
        i = i - 1;
        match meld[i] {
            Card::Standard { value, .. } => {
                proof {
                    let f = some_standard(meld@);
                    assert(card_rank(meld@[i as int]) - card_rank(meld@[f]) == i - f);
                    crate::card::lemma_rank_injective(value, value);
                }
                return Some(value.rank() + offset);
            },
            Card::Joker => {
                proof {
                    if offset >= 1 {
                        let n = meld@.len() as int;
                        assert(meld@[n - 1] is Joker && meld@[n - 2] is Joker);
                        let a = meld@.drop_last();
                        lemma_joker_count_push(a.drop_last(), a.last());
                        assert(a.drop_last().push(a.last()) =~= a);
                        lemma_joker_count_push(a, meld@.last());
                        assert(a.push(meld@.last()) =~= meld@);
                    }
                }
                offset = offset + 1;
            },
        }
    }
    proof {
        let f = some_standard(meld@);
        assert(meld@[f] is Joker);
    }
    None
}

/// Suit of an escala: that of its first standard card.
fn escala_suit_of(meld: &[Card]) -> (r: Suit)
    requires
        is_escala(meld@),
    ensures
        r == escala_suit(meld@),
{
    proof {
        lemma_has_standard(meld@);
    }
    let mut k: usize = 0;
    while k < meld.len()
        invariant
            is_escala(meld@),
            k <= meld@.len(),
            forall|j: int| 0 <= j < k ==> meld@[j] is Joker,
        decreases meld@.len() - k,
    {
        if let Card::Standard { suit, .. } = meld[k] {
            proof {
                let f = some_standard(meld@);
                assert(card_suit(meld@[f]) == card_suit(meld@[k as int]));
            }
            return suit;
        }
        k = k + 1;
    }
    proof {
        let f = some_standard(meld@);
        assert(meld@[f] is Joker);
    }
    Suit::Hearts
}

/// Whether `card` can be shed onto `meld`, and where.
pub fn can_shed(card: &Card, meld: &[Card]) -> (r: Option<ShedPosition>)
    ensures
        r == shed_position(*card, meld@),
{
    let c = *card;
    if meld.len() == 0 {
        return None;
    }
    let joker_count = count_jokers(meld);
    let trio = is_meld_trio(meld);
    let escala = !trio && is_meld_escala(meld);
    if trio {
        if c.is_joker() && joker_count >= 1 {
            return None;
        }
        if let Card::Standard { value, .. } = c {
            proof {
                lemma_has_standard(meld@);
            }
            // rank of the trio: that of its first standard card
            let mut k: usize = 0;
            while k < meld.len()
                invariant
                    is_trio(meld@),
                    c == *card,
                    c == (Card::Standard { suit: card_suit(c), value }),
                    meld@.len() > 0,
                    k <= meld@.len(),
                    forall|j: int| 0 <= j < k ==> meld@[j] is Joker,
                decreases meld@.len() - k,
            {
                if let Card::Standard { value: v, .. } = meld[k] {
                    proof {
                        let f = some_standard(meld@);
                        assert(card_rank(meld@[f]) == card_rank(meld@[k as int]));
                        crate::card::lemma_rank_injective(value, v);
                    }
                    if value == v {
                        return Some(ShedPosition::TrioExtension);
                    }
                    return None;
                }
                k = k + 1;
            }
            proof {
                let f = some_standard(meld@);
                assert(meld@[f] is Joker);
            }
            return None;
        }
        return Some(ShedPosition::TrioExtension);
    }
    if escala {
        let first_val = escala_first_value(meld);
        let last_val = escala_last_value(meld);
        let first_val = match first_val {
            Some(v) => v,
            None => return None,
        };
        let last_val = match last_val {
            Some(v) => v,
            None => return None,
        };
        match c {
            Card::Standard { suit: cs, value } => {
                let meld_suit = escala_suit_of(meld);
                if cs != meld_suit {
                    return None;
                }
                let v = value.rank();
                if v + 1 == first_val {
                    return Some(ShedPosition::ExtendLeft);
                }
                if v == last_val + 1 {
                    return Some(ShedPosition::ExtendRight);
                }
                None
            },
            Card::Joker => {
                if joker_count == 0 && last_val < 14 {
                    Some(ShedPosition::ExtendRight)
                } else {
                    None
                }
            },
        }
    } else {
        None
    }
}

/// `act` is a shed that `hand` can make onto one of the melds of `all`.
pub open spec fn shed_ok(hand: Seq<Card>, all: Seq<(&str, &Vec<Vec<Card>>)>, act: ShedAction) -> bool {
    &&& act.hand_index < hand.len()
    &&& exists|p: int|
        0 <= p < all.len() && (#[trigger] all[p]).0@ == act.target_player_id@ && act.target_combo_idx
            < all[p].1@.len() && shed_position(
            hand[act.hand_index as int],
            all[p].1@[act.target_combo_idx as int]@,
        ) == Some(act.position)
}

/// `acts` holds the shed of hand card `i` onto meld `k` of player `id` at `pos`.
pub open spec fn shed_listed(acts: Seq<ShedAction>, i: int, id: Seq<char>, k: int, pos: ShedPosition) -> bool {
    exists|a: int|
        0 <= a < acts.len() && (#[trigger] acts[a]).hand_index == i && acts[a].target_player_id@ == id
            && acts[a].target_combo_idx == k && acts[a].position == pos
}

proof fn lemma_listed_extend(acts: Seq<ShedAction>, more: Seq<ShedAction>, i: int, id: Seq<char>, k: int, pos: ShedPosition)
    requires
        shed_listed(acts, i, id, k, pos),
        acts.len() <= more.len(),
        forall|a: int| 0 <= a < acts.len() ==> #[trigger] more[a] == acts[a],
    ensures
        shed_listed(more, i, id, k, pos),
{
    let a = choose|a: int|
        0 <= a < acts.len() && (#[trigger] acts[a]).hand_index == i && acts[a].target_player_id@ == id
            && acts[a].target_combo_idx == k && acts[a].position == pos;
    assert(more[a] == acts[a]);
}

/// Pushes the sheds of `card` (hand card `i`) onto each meld of `combos`,
/// the melds of player `all[p]`.
fn push_sheds_onto(
    card: Card,
    i: usize,
    player_id: &str,
    combos: &Vec<Vec<Card>>,
    out: &mut Vec<ShedAction>,
    hand: Ghost<Seq<Card>>,
    all: Ghost<Seq<(&str, &Vec<Vec<Card>>)>>,
    p: Ghost<int>,
)
    requires
        i < hand@.len(),
        hand@[i as int] == card,
        0 <= p@ < all@.len(),
        all@[p@].0 == player_id,
        all@[p@].1 == combos,
        forall|a: int| 0 <= a < old(out)@.len() ==> shed_ok(hand@, all@, #[trigger] old(out)@[a]),
    ensures
        old(out)@.len() <= final(out)@.len(),
        forall|a: int| 0 <= a < old(out)@.len() ==> #[trigger] final(out)@[a] == old(out)@[a],
        forall|a: int| 0 <= a < final(out)@.len() ==> shed_ok(hand@, all@, #[trigger] final(out)@[a]),
        forall|k: int|
            0 <= k < combos@.len() && #[trigger] shed_position(card, combos@[k]@) is Some ==> shed_listed(
                final(out)@,
                i as int,
                player_id@,
                k,
                shed_position(card, combos@[k]@)->Some_0,
            ),
{
    let ghost start = out@;
    let mut k: usize = 0;
    while k < combos.len()
        invariant
            i < hand@.len(),
            hand@[i as int] == card,
            0 <= p@ < all@.len(),
            all@[p@].0 == player_id,
            all@[p@].1 == combos,
            k <= combos@.len(),
            start == old(out)@,
            start.len() <= out@.len(),
            forall|a: int| 0 <= a < start.len() ==> #[trigger] out@[a] == start[a],
            forall|a: int| 0 <= a < out@.len() ==> shed_ok(hand@, all@, #[trigger] out@[a]),
            forall|k2: int|
                0 <= k2 < k && #[trigger] shed_position(card, combos@[k2]@) is Some ==> shed_listed(
                    out@,
                    i as int,
                    player_id@,
                    k2,
                    shed_position(card, combos@[k2]@)->Some_0,
                ),
        decreases combos@.len() - k,
    {
        if let Some(position) = can_shed(&card, combos[k].as_slice()) {
            let act = ShedAction {
                hand_index: i,
                target_player_id: player_id.to_owned(),
                target_combo_idx: k,
                position,
            };
            let ghost before = out@;
            out.push(act);
            proof {
                assert(out@[before.len() as int] == act);
                assert(shed_ok(hand@, all@, act)) by {
                    assert(all@[p@].0@ == act.target_player_id@);
                }
                assert forall|a: int| 0 <= a < out@.len() implies shed_ok(hand@, all@, #[trigger] out@[a]) by {
                    if a < before.len() {
                        assert(out@[a] == before[a]);
                    }
                }
                assert forall|k2: int|
                    0 <= k2 < k + 1 && #[trigger] shed_position(card, combos@[k2]@) is Some implies shed_listed(
                        out@,
                        i as int,
                        player_id@,
                        k2,
                        shed_position(card, combos@[k2]@)->Some_0,
                    ) by {
                    if k2 < k {
                        lemma_listed_extend(before, out@, i as int, player_id@, k2, shed_position(card, combos@[k2]@)->Some_0);
                    } else {
                        assert(out@[before.len() as int].hand_index == i);
                    }
                }
            }
        }
        k = k + 1;
    }
}

/// Every shed a player with `hand` could make onto the melds of
/// `all_bajadas` (each a player id with that player's melds): for each hand
/// card, each player and each of their melds in order, the position
/// `can_shed` gives, if any.
pub fn find_sheddable_cards(hand: &[Card], all_bajadas: &[(&str, &Vec<Vec<Card>>)]) -> (r: Vec<ShedAction>)
    ensures
        forall|a: int| 0 <= a < r@.len() ==> shed_ok(hand@, all_bajadas@, #[trigger] r@[a]),
        forall|i: int, p: int, k: int|
            0 <= i < hand@.len() && 0 <= p < all_bajadas@.len() && 0 <= k < all_bajadas@[p].1@.len()
                && #[trigger] shed_position(hand@[i], all_bajadas@[p].1@[k]@) is Some ==> shed_listed(
                r@,
                i,
                all_bajadas@[p].0@,
                k,
                shed_position(hand@[i], all_bajadas@[p].1@[k]@)->Some_0,
            ),
{
    let mut actions: Vec<ShedAction> = Vec::new();
    let mut i: usize = 0;
    while i < hand.len()
        invariant
            i <= hand@.len(),
            forall|a: int| 0 <= a < actions@.len() ==> shed_ok(hand@, all_bajadas@, #[trigger] actions@[a]),
            forall|i2: int, p: int, k: int|
                0 <= i2 < i && 0 <= p < all_bajadas@.len() && 0 <= k < all_bajadas@[p].1@.len()
                    && #[trigger] shed_position(hand@[i2], all_bajadas@[p].1@[k]@) is Some ==> shed_listed(
                    actions@,
                    i2,
                    all_bajadas@[p].0@,
                    k,
                    shed_position(hand@[i2], all_bajadas@[p].1@[k]@)->Some_0,
                ),
        decreases hand@.len() - i,
    {
        let card = hand[i];
        let mut p: usize = 0;
        while p < all_bajadas.len()
            invariant
                i < hand@.len(),
                card == hand@[i as int],
                p <= all_bajadas@.len(),
                forall|a: int| 0 <= a < actions@.len() ==> shed_ok(hand@, all_bajadas@, #[trigger] actions@[a]),
                forall|i2: int, p2: int, k: int|
                    ((0 <= i2 < i && 0 <= p2 < all_bajadas@.len()) || (i2 == i && 0 <= p2 < p)) && 0 <= k
                        < all_bajadas@[p2].1@.len() && #[trigger] shed_position(hand@[i2], all_bajadas@[p2].1@[k]@)
                        is Some ==> shed_listed(
                        actions@,
                        i2,
                        all_bajadas@[p2].0@,
                        k,
                        shed_position(hand@[i2], all_bajadas@[p2].1@[k]@)->Some_0,
                    ),
            decreases all_bajadas@.len() - p,
        {
            let (player_id, combos) = all_bajadas[p];
            let ghost before = actions@;
            push_sheds_onto(card, i, player_id, combos, &mut actions, Ghost(hand@), Ghost(all_bajadas@), Ghost(p as int));
            proof {
                assert forall|i2: int, p2: int, k: int|
                    ((0 <= i2 < i && 0 <= p2 < all_bajadas@.len()) || (i2 == i && 0 <= p2 < p + 1)) && 0 <= k
                        < all_bajadas@[p2].1@.len() && #[trigger] shed_position(hand@[i2], all_bajadas@[p2].1@[k]@)
                        is Some implies shed_listed(
                        actions@,
                        i2,
                        all_bajadas@[p2].0@,
                        k,
                        shed_position(hand@[i2], all_bajadas@[p2].1@[k]@)->Some_0,
                    ) by {
                    if i2 == i && p2 == p {
                    } else {
                        lemma_listed_extend(before, actions@, i2, all_bajadas@[p2].0@, k, shed_position(hand@[i2], all_bajadas@[p2].1@[k]@)->Some_0);
                    }
                }
            }
            p = p + 1;
        }
        i = i + 1;
    }
    actions
}
} // verus!
