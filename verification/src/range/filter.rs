//! Hand strength buckets: classification of a two-card holding against a board.
use vstd::prelude::*;
use crate::card::Card;
use crate::eval::{
    all_same_suit, category_of_score, distinct_valid, eval_5hand, eval_7hand, hand_score,
    lemma_hand_shape, lemma_score_category, lemma_seven_card_score_at_most_subset,
    lemma_seven_card_score_is_best, rank_count, rank_counts, seven_card_score, combo_hand,
    HandRankCategory,
};

verus! {

/// Hand strength classification bucket for a given board texture.
#[derive(Debug, Copy, Clone, PartialEq, Eq, Hash, Structural)]
pub enum HandStrengthBucket {
    /// Weak high card, missed draws, no pair.
    Air,
    /// Significant draw (Flush draw, Open-Ended Straight Draw, Gutshot).
    Draw,
    /// Weak/middle pair, underpair, pocket pair below top card.
    Marginal,
    /// Top pair with strong kicker, Overpair, Two Pair.
    Strong,
    /// Sets, Full House, Flush, Straight, Quads, Straight Flush.
    Monster,
}

/// Simplified 3-tier categorization (Air, Marginal, Strong).
#[derive(Debug, Copy, Clone, PartialEq, Eq, Hash, Structural)]
pub enum ThreeTierBucket {
    Air,
    Marginal,
    Strong,
}

/// The three-tier bucket of a five-tier bucket.
pub open spec fn three_tier_of(b: HandStrengthBucket) -> ThreeTierBucket {
    match b {
        HandStrengthBucket::Air => ThreeTierBucket::Air,
        HandStrengthBucket::Draw | HandStrengthBucket::Marginal => ThreeTierBucket::Marginal,
        HandStrengthBucket::Strong | HandStrengthBucket::Monster => ThreeTierBucket::Strong,
    }
}

impl HandStrengthBucket {
    /// Maps 5-tier classification into the 3-tier model (Air, Marginal, Strong).
    pub fn to_three_tier(self) -> (t: ThreeTierBucket)
        ensures
            t == three_tier_of(self),
    {
        match self {
            HandStrengthBucket::Air => ThreeTierBucket::Air,
            HandStrengthBucket::Draw | HandStrengthBucket::Marginal => ThreeTierBucket::Marginal,
            HandStrengthBucket::Strong | HandStrengthBucket::Monster => ThreeTierBucket::Strong,
        }
    }
}

/// Actions an opponent can take on a betting street.
#[derive(Debug, Copy, Clone, PartialEq, Eq, Hash, Structural)]
pub enum OpponentAction {
    Check,
    Call,
    Bet,
    Raise,
    Fold,
}

/// Standard player archetypes with characteristic tendency deviations.
#[derive(Debug, Copy, Clone, PartialEq, Eq, Hash, Structural)]
pub enum OpponentArchetype {
    /// Extremely tight, rarely bluffs, raises only with Strong/Monster.
    Nit,
    /// Extremely sticky, calls down with Marginal/Draws, rarely raises.
    CallingStation,
    /// Ultra-aggressive, bluffs frequently with Air/Draws, raises wide.
    Maniac,
    /// Balanced standard approximation.
    Balanced,
}

/// The preflop bucket of two hole cards of rank indices `r1`, `r2` (Deuce = 0, ..., Ten = 8,
/// Jack = 9, Queen = 10, King = 11, Ace = 12).
pub open spec fn preflop_bucket(r1: int, r2: int, suited: bool) -> HandStrengthBucket {
    let high = if r1 > r2 { r1 } else { r2 };
    let low = if r1 > r2 { r2 } else { r1 };
    if high == low {
        if high >= 8 {
            // TT, JJ, QQ, KK, AA
            HandStrengthBucket::Monster
        } else if high >= 5 {
            // 77, 88, 99
            HandStrengthBucket::Strong
        } else {
            // 22-66
            HandStrengthBucket::Marginal
        }
    } else if high == 12 {
        if low >= 9 {
            // AK, AQ, AJ
            HandStrengthBucket::Strong
        } else if suited {
            // A2s-ATs
            HandStrengthBucket::Marginal
        } else if low >= 8 {
            // ATo
            HandStrengthBucket::Marginal
        } else {
            HandStrengthBucket::Air
        }
    } else if high >= 10 && low >= 9 {
        // KQ, KJ, QJ
        if suited {
            HandStrengthBucket::Strong
        } else {
            HandStrengthBucket::Marginal
        }
    } else if suited && high - low == 1 && low >= 2 && high <= 8 {
        // Suited connectors 54s - T9s
        HandStrengthBucket::Draw
    } else {
        HandStrengthBucket::Air
    }
}

/// The highest rank index on the board (0 for an empty board).
pub open spec fn max_board_rank(board: Seq<Card>) -> int
    decreases board.len(),
{
    if board.len() == 0 {
        0
    } else {
        let m = max_board_rank(board.drop_last());
        let r = board.last().rank_idx() as int;
        if r > m {
            r
        } else {
            m
        }
    }
}

/// Some board card has rank index `r`.
pub open spec fn board_has_rank(board: Seq<Card>, r: int) -> bool {
    exists|j: int| 0 <= j < board.len() && (#[trigger] board[j]).rank_idx() == r
}

/// Number of the cards with suit index `s`.
pub open spec fn suit_count(cards: Seq<Card>, s: int) -> int
    decreases cards.len(),
{
    if cards.len() == 0 {
        0
    } else {
        suit_count(cards.drop_last(), s) + if cards.last().suit_idx() == s { 1int } else { 0int }
    }
}

/// Four of the cards share a suit.
pub open spec fn flush_draw(cards: Seq<Card>) -> bool {
    exists|s: int| 0 <= s < 4 && #[trigger] suit_count(cards, s) == 4
}

/// The five ranks of straight span `k`: span 0 is A-2-3-4-5, span `k >= 1` is the ranks
/// `k - 1 .. k + 3`.
pub open spec fn span_has_rank(k: int, r: int) -> bool {
    if k == 0 {
        r == 12 || (0 <= r <= 3)
    } else {
        k - 1 <= r <= k + 3
    }
}

/// Number of ranks of span `k` among ranks `0..n` that some card has.
pub open spec fn span_hits(cards: Seq<Card>, k: int, n: int) -> int
    decreases n,
{
    if n <= 0 {
        0
    } else {
        span_hits(cards, k, n - 1) + if span_has_rank(k, n - 1) && rank_count(cards, n - 1) > 0 {
            1int
        } else {
            0int
        }
    }
}

/// Four of the five ranks of some straight span are held.
pub open spec fn straight_draw(cards: Seq<Card>) -> bool {
    exists|k: int| 0 <= k < 10 && #[trigger] span_hits(cards, k, 13) == 4
}

/// The bucket of a made hand of the given score, from the hole ranks and the board.
pub open spec fn postflop_bucket(score: int, c1: Card, c2: Card, board: Seq<Card>) -> HandStrengthBucket {
    let r1 = c1.rank_idx() as int;
    let r2 = c2.rank_idx() as int;
    let all = seq![c1, c2] + board;
    if score <= 2467 {
        HandStrengthBucket::Monster
    } else if score <= 3325 {
        HandStrengthBucket::Strong
    } else if score <= 6185 {
        let m = max_board_rank(board);
        if r1 == r2 {
            if r1 > m {
                HandStrengthBucket::Strong
            } else {
                HandStrengthBucket::Marginal
            }
        } else if board_has_rank(board, r1) || board_has_rank(board, r2) {
            let paired = if board_has_rank(board, r1) { r1 } else { r2 };
            if paired == m {
                let kicker = if paired == r1 { r2 } else { r1 };
                if kicker >= 9 {
                    HandStrengthBucket::Strong
                } else {
                    HandStrengthBucket::Marginal
                }
            } else {
                HandStrengthBucket::Marginal
            }
        } else if (if r1 > r2 { r1 } else { r2 }) >= 11 {
            HandStrengthBucket::Marginal
        } else {
            HandStrengthBucket::Air
        }
    } else if flush_draw(all) || straight_draw(all) {
        HandStrengthBucket::Draw
    } else {
        HandStrengthBucket::Air
    }
}

/// The six cards without the card at position `d`.
pub open spec fn drop_one(six: Seq<Card>, d: int) -> Seq<Card> {
    six.take(d) + six.skip(d + 1)
}

/// The strongest score over the five-card subsets that leave out one of the first `n` cards.
pub open spec fn best_drop_score(six: Seq<Card>, n: int) -> int
    decreases n,
{
    if n <= 0 {
        9999
    } else {
        let prev = best_drop_score(six, n - 1);
        let s = hand_score(drop_one(six, n - 1));
        if s < prev {
            s
        } else {
            prev
        }
    }
}

/// The made-hand score used to classify a holding: the best 5 of the hole cards and the
/// first five (flop: three, turn: four) board cards.
pub open spec fn holding_score(c1: Card, c2: Card, board: Seq<Card>) -> int {
    if board.len() >= 5 {
        seven_card_score(seq![c1, c2] + board.take(5))
    } else if board.len() == 3 {
        hand_score(seq![c1, c2] + board)
    } else {
        best_drop_score(seq![c1, c2] + board.take(4), 6)
    }
}

/// The bucket of a holding on a board.
pub open spec fn classify_spec(c1: Card, c2: Card, board: Seq<Card>) -> HandStrengthBucket {
    if board.len() == 0 {
        preflop_bucket(c1.rank_idx() as int, c2.rank_idx() as int, c1.suit_idx() == c2.suit_idx())
    } else {
        postflop_bucket(holding_score(c1, c2, board), c1, c2, board)
    }
}

/// Classifies a 2-card combination against a community board into a HandStrengthBucket.
///
/// The board has no cards (preflop) or at least three. Preflop only the ranks and suits of
/// the hole cards are read; with a board, the hole cards and board cards are distinct
/// cards, as the hand evaluator asks.
pub fn classify_combo(c1: Card, c2: Card, board: &[Card]) -> (b: HandStrengthBucket)
    requires
        board@.len() == 0 || 3 <= board@.len() <= 50,
        board@.len() == 0 ==> c1.fields_readable() && c2.fields_readable(),
        board@.len() > 0 ==> distinct_valid(seq![c1, c2] + board@),
    ensures
        b == classify_spec(c1, c2, board@),
{
    if board.len() == 0 {
        return classify_preflop(c1, c2);
    }
    let ghost all = seq![c1, c2] + board@;
    proof {
        assert(all[0] == c1 && all[1] == c2);
        assert(c1.valid() && c2.valid());
        assert forall|j: int| 0 <= j < board@.len() implies (#[trigger] board@[j]).valid() by {
            assert(all[j + 2] == board@[j]);
        }
    }
    let b_len = board.len();
    if b_len >= 5 {
        let cards = [c1, c2, board[0], board[1], board[2], board[3], board[4]];
        proof {
            assert(cards@ =~= seq![c1, c2] + board@.take(5));
            assert forall|i: int, j: int| 0 <= i < j < 7 implies (#[trigger] cards@[i]).index_of()
                != (#[trigger] cards@[j]).index_of() by {
                assert(cards@[i] == all[i] && cards@[j] == all[j]);
            }
        }
        let score = eval_7hand(&cards);
        classify_from_score_and_board(score, c1, c2, board)
    } else if b_len == 3 {
        proof {
            assert(seq![c1, c2, board@[0], board@[1], board@[2]] =~= all);
        }
        let score = eval_5hand(c1, c2, board[0], board[1], board[2]);
        classify_from_score_and_board(score, c1, c2, board)
    } else {
        let six = [c1, c2, board[0], board[1], board[2], board[3]];
        proof {
            assert(six@ =~= seq![c1, c2] + board@.take(4));
        }
        let mut best: u16 = 9999;
        let mut drop_idx: usize = 0;
        while drop_idx < 6
            invariant
                drop_idx <= 6,
                six@ == seq![c1, c2] + board@.take(4),
                b_len == board@.len(),
                b_len == 4,
                all == seq![c1, c2] + board@,
                distinct_valid(all),
                best as int == best_drop_score(six@, drop_idx as int),
                drop_idx > 0 ==> 1 <= best <= 7462,
            decreases 6 - drop_idx,
        {
            let mut five = [Card::from_raw(0); 5];
            let mut idx: usize = 0;
            let mut i: usize = 0;
            while i < 6
                invariant
                    i <= 6,
                    drop_idx < 6,
                    idx == if i > drop_idx { i - 1 } else { i as int },
                    five@.len() == 5,
                    forall|k: int| 0 <= k < idx ==> five@[k] == #[trigger] drop_one(six@, drop_idx as int)[k],
                decreases 6 - i,
            {
                if i != drop_idx {
                    five[idx] = six[i];
                    idx = idx + 1;
                }
                i = i + 1;
            }
            proof {
                let h = drop_one(six@, drop_idx as int);
                assert(five@ =~= h);
                assert forall|a: int, b: int| 0 <= a < b < 5 implies (#[trigger] h[a]).index_of()
                    != (#[trigger] h[b]).index_of() by {
                    let pa = if a < drop_idx { a } else { a + 1 };
                    let pb = if b < drop_idx { b } else { b + 1 };
                    assert(h[a] == all[pa] && h[b] == all[pb]);
                }
                assert forall|a: int| 0 <= a < 5 implies (#[trigger] h[a]).valid() by {
                    let pa = if a < drop_idx { a } else { a + 1 };
                    assert(h[a] == all[pa]);
                }
            }
            let s = eval_5hand(five[0], five[1], five[2], five[3], five[4]);
            proof {
                assert(seq![five[0], five[1], five[2], five[3], five[4]] =~= five@);
            }
            if s < best {
                best = s;
            }
            drop_idx = drop_idx + 1;
        }
        classify_from_score_and_board(best, c1, c2, board)
    }
}

/// The preflop bucket of two hole cards.
fn classify_preflop(c1: Card, c2: Card) -> (b: HandStrengthBucket)
    requires
        c1.fields_readable(),
        c2.fields_readable(),
    ensures
        b == preflop_bucket(c1.rank_idx() as int, c2.rank_idx() as int, c1.suit_idx() == c2.suit_idx()),
{
    let r1 = c1.rank().as_u8();
    let r2 = c2.rank().as_u8();
    let (high, low) = if r1 > r2 { (r1, r2) } else { (r2, r1) };
    let suited = c1.suit().as_u8() == c2.suit().as_u8();

    if high == low {
        return if high >= 8 {
            // TT, JJ, QQ, KK, AA
            HandStrengthBucket::Monster
        } else if high >= 5 {
            // 77, 88, 99
            HandStrengthBucket::Strong
        } else {
            // 22-66
            HandStrengthBucket::Marginal
        };
    }
    if high == 12 {
        if low >= 9 {
            // AK, AQ, AJ
            return HandStrengthBucket::Strong;
        } else if suited {
            // A2s-ATs
            return HandStrengthBucket::Marginal;
        } else if low >= 8 {
            // ATo
            return HandStrengthBucket::Marginal;
        } else {
            return HandStrengthBucket::Air;
        }
    }
    if high >= 10 && low >= 9 {
        // KQ, KJ, QJ
        return if suited {
            HandStrengthBucket::Strong
        } else {
            HandStrengthBucket::Marginal
        };
    }
    if suited && (high - low == 1) && low >= 2 && high <= 8 {
        // Suited connectors 54s - T9s
        return HandStrengthBucket::Draw;
    }
    HandStrengthBucket::Air
}

/// The bucket of a made hand of the given score on a non-empty board.
fn classify_from_score_and_board(score: u16, c1: Card, c2: Card, board: &[Card]) -> (b: HandStrengthBucket)
    requires
        c1.valid(),
        c2.valid(),
        1 <= board@.len() <= 50,
        forall|j: int| 0 <= j < board@.len() ==> (#[trigger] board@[j]).valid(),
    ensures
        b == postflop_bucket(score as int, c1, c2, board@),
{
    if score <= 2467 {
        return HandStrengthBucket::Monster;
    }
    if score <= 3325 {
        return HandStrengthBucket::Strong;
    }
    if score <= 6185 {
        let max_board_rank = max_rank_of(board);
        let r1 = c1.rank().as_u8() as u32;
        let r2 = c2.rank().as_u8() as u32;
        if r1 == r2 {
            return if (r1 as i64) > max_board_rank {
                HandStrengthBucket::Strong
            } else {
                HandStrengthBucket::Marginal
            };
        }
        let has1 = has_rank(board, r1);
        let has2 = has_rank(board, r2);
        let paired_rank = if has1 {
            r1
        } else if has2 {
            r2
        } else {
            let high_hole = if r1 > r2 { r1 } else { r2 };
            return if high_hole >= 11 {
                HandStrengthBucket::Marginal
            } else {
                HandStrengthBucket::Air
            };
        };
        if (paired_rank as i64) == max_board_rank {
            let kicker = if paired_rank == r1 { r2 } else { r1 };
            return if kicker >= 9 {
                HandStrengthBucket::Strong
            } else {
                HandStrengthBucket::Marginal
            };
        } else {
            return HandStrengthBucket::Marginal;
        }
    }
    if has_flush_draw(c1, c2, board) || has_straight_draw(c1, c2, board) {
        return HandStrengthBucket::Draw;
    }
    HandStrengthBucket::Air
}

/// The highest rank index among the board cards.
fn max_rank_of(board: &[Card]) -> (m: i64)
    requires
        forall|j: int| 0 <= j < board@.len() ==> (#[trigger] board@[j]).valid(),
    ensures
        m == max_board_rank(board@),
{
    let n = board.len();
    let mut m: i64 = 0;
    let mut i: usize = 0;
    while i < n
        invariant
            n == board@.len(),
            i <= n,
            forall|j: int| 0 <= j < board@.len() ==> (#[trigger] board@[j]).valid(),
            m == max_board_rank(board@.take(i as int)),
            0 <= m <= 12,
        decreases n - i,
    {
        proof {
            assert(board@.take(i + 1).drop_last() =~= board@.take(i as int));
            assert(board@.take(i + 1).last() == board@[i as int]);
        }
        let r = board[i].rank().as_u8() as i64;
        if r > m {
            m = r;
        }
        i = i + 1;
    }
    proof {
        assert(board@.take(n as int) =~= board@);
    }
    m
}

/// Whether some board card has rank index `r`.
fn has_rank(board: &[Card], r: u32) -> (b: bool)
    requires
        forall|j: int| 0 <= j < board@.len() ==> (#[trigger] board@[j]).valid(),
    ensures
        b == board_has_rank(board@, r as int),
{
    let n = board.len();
    let mut i: usize = 0;
    while i < n
        invariant
            n == board@.len(),
            i <= n,
            forall|j: int| 0 <= j < board@.len() ==> (#[trigger] board@[j]).valid(),
            forall|j: int| 0 <= j < i ==> (#[trigger] board@[j]).rank_idx() != r,
        decreases n - i,
    {
        if board[i].rank().as_u8() as u32 == r {
            return true;
        }
        i = i + 1;
    }
    false
}

/// Detects if the hand + board forms a 4-card flush draw.
fn has_flush_draw(c1: Card, c2: Card, board: &[Card]) -> (b: bool)
    requires
        c1.valid(),
        c2.valid(),
        board@.len() <= 50,
        forall|j: int| 0 <= j < board@.len() ==> (#[trigger] board@[j]).valid(),
    ensures
        b == flush_draw(seq![c1, c2] + board@),
{
    let ghost all = seq![c1, c2] + board@;
    let mut counts: Vec<usize> = Vec::new();
    counts.push(0);
    counts.push(0);
    counts.push(0);
    counts.push(0);
    let cards = [c1, c2];
    let mut i: usize = 0;
    let n = board.len();
    proof {
        assert forall|s: int| 0 <= s < 4 implies counts@[s] == suit_count(all.take(0), s) by {}
    }
    while i < n + 2
        invariant
            n == board@.len(),
            n <= 50,
            i <= n + 2,
            all == seq![c1, c2] + board@,
            cards@ == seq![c1, c2],
            forall|j: int| 0 <= j < all.len() ==> (#[trigger] all[j]).valid(),
            counts@.len() == 4,
            forall|s: int| 0 <= s < 4 ==> #[trigger] counts@[s] == suit_count(all.take(i as int), s),
            forall|s: int| 0 <= s < 4 ==> #[trigger] counts@[s] <= i,
        decreases n + 2 - i,
    {
        let c = if i < 2 { cards[i] } else { board[i - 2] };
        proof {
            assert(c == all[i as int]);
            assert(all.take(i + 1).drop_last() =~= all.take(i as int));
            assert(all.take(i + 1).last() == all[i as int]);
        }
        let s = c.suit().as_u8() as usize;
        let cur = counts[s];
        counts.set(s, cur + 1);
        i = i + 1;
    }
    proof {
        assert(all.take(n + 2) =~= all);
    }
    let r = counts[0] == 4 || counts[1] == 4 || counts[2] == 4 || counts[3] == 4;
    proof {
        if r {
            if counts@[0] == 4 {
                assert(suit_count(all, 0) == 4);
            } else if counts@[1] == 4 {
                assert(suit_count(all, 1) == 4);
            } else if counts@[2] == 4 {
                assert(suit_count(all, 2) == 4);
            } else {
                assert(suit_count(all, 3) == 4);
            }
        } else {
            assert forall|s: int| 0 <= s < 4 implies #[trigger] suit_count(all, s) != 4 by {
                assert(counts@[s] == suit_count(all, s));
            }
        }
    }
    r
}

/// Detects if the hand + board forms a straight draw (OESD or Gutshot): four of the five
/// ranks of some straight span.
fn has_straight_draw(c1: Card, c2: Card, board: &[Card]) -> (b: bool)
    requires
        c1.valid(),
        c2.valid(),
        board@.len() <= 50,
        forall|j: int| 0 <= j < board@.len() ==> (#[trigger] board@[j]).valid(),
    ensures
        b == straight_draw(seq![c1, c2] + board@),
{
    let ghost all = seq![c1, c2] + board@;
    let mut board_cards: Vec<Card> = Vec::new();
    board_cards.push(c1);
    board_cards.push(c2);
    let n = board.len();
    let mut i: usize = 0;
    while i < n
        invariant
            n == board@.len(),
            i <= n,
            board_cards@ == seq![c1, c2] + board@.take(i as int),
        decreases n - i,
    {
        board_cards.push(board[i]);
        proof {
            assert(seq![c1, c2] + board@.take(i + 1) =~= (seq![c1, c2] + board@.take(i as int)).push(board@[i as int]));
        }
        i = i + 1;
    }
    proof {
        assert(board@.take(n as int) =~= board@);
        assert(board_cards@ == all);
    }
    let present = ranks_present(&board_cards);
    let mut k: usize = 0;
    while k < 10
        invariant
            k <= 10,
            all == seq![c1, c2] + board@,
            present@.len() == 13,
            forall|r: int| 0 <= r < 13 ==> #[trigger] present@[r] == (rank_count(all, r) > 0),
            forall|j: int| 0 <= j < k ==> #[trigger] span_hits(all, j, 13) != 4,
        decreases 10 - k,
    {
        let mut hits: usize = 0;
        let mut r: usize = 0;
        while r < 13
            invariant
                k < 10,
                r <= 13,
                present@.len() == 13,
                forall|x: int| 0 <= x < 13 ==> #[trigger] present@[x] == (rank_count(all, x) > 0),
                hits == span_hits(all, k as int, r as int),
                hits <= r,
            decreases 13 - r,
        {
            let in_span = if k == 0 {
                r == 12 || r <= 3
            } else {
                k - 1 <= r && r <= k + 3
            };
            if in_span && present[r] {
                hits = hits + 1;
            }
            r = r + 1;
        }
        if hits == 4 {
            proof {
                assert(span_hits(all, k as int, 13) == 4);
            }
            return true;
        }
        k = k + 1;
    }
    false
}

/// For each rank, whether some card has it.
fn ranks_present(cards: &Vec<Card>) -> (p: Vec<bool>)
    requires
        forall|j: int| 0 <= j < cards@.len() ==> (#[trigger] cards@[j]).valid(),
    ensures
        p@.len() == 13,
        forall|r: int| 0 <= r < 13 ==> #[trigger] p@[r] == (rank_count(cards@, r) > 0),
{
    let mut p: Vec<bool> = Vec::new();
    let mut k: usize = 0;
    while k < 13
        invariant
            k <= 13,
            p@.len() == k,
            forall|r: int| 0 <= r < k ==> !(#[trigger] p@[r]),
        decreases 13 - k,
    {
        p.push(false);
        k = k + 1;
    }
    let n = cards.len();
    let mut i: usize = 0;
    while i < n
        invariant
            n == cards@.len(),
            i <= n,
            p@.len() == 13,
            forall|j: int| 0 <= j < cards@.len() ==> (#[trigger] cards@[j]).valid(),
            forall|r: int| 0 <= r < 13 ==> #[trigger] p@[r] == (rank_count(cards@.take(i as int), r) > 0),
        decreases n - i,
    {
        proof {
            assert(cards@.take(i + 1).drop_last() =~= cards@.take(i as int));
            assert(cards@.take(i + 1).last() == cards@[i as int]);
            assert forall|r: int| 0 <= r < 13 implies rank_count(cards@.take(i as int), r) >= 0 by {
                crate::eval::lemma_rank_count_nonneg(cards@.take(i as int), r);
            }
        }
        let r = cards[i].rank().as_u8() as usize;
        p.set(r, true);
        proof {
            assert forall|x: int| 0 <= x < 13 implies #[trigger] p@[x] == (rank_count(
                cards@.take(i + 1),
                x,
            ) > 0) by {
                crate::eval::lemma_rank_count_nonneg(cards@.take(i as int), x);
            }
        }
        i = i + 1;
    }
    proof {
        assert(cards@.take(n as int) =~= cards@);
    }
    p
}

/// The hole cards followed by the board cards.
pub open spec fn hole_and_board(c1: Card, c2: Card, board: Seq<Card>) -> Seq<Card> {
    seq![c1, c2] + board
}

proof fn lemma_best_drop_score(six: Seq<Card>, n: int)
    requires
        0 <= n <= 6,
    ensures
        forall|k: int| 0 <= k < n ==> best_drop_score(six, n) <= hand_score(#[trigger] drop_one(six, k)),
        best_drop_score(six, n) == 9999 || exists|k: int|
            0 <= k < n && best_drop_score(six, n) == hand_score(#[trigger] drop_one(six, k)),
        best_drop_score(six, n) <= 9999,
    decreases n,
{
    if n > 0 {
        lemma_best_drop_score(six, n - 1);
        if best_drop_score(six, n) != 9999 && best_drop_score(six, n) != hand_score(drop_one(six, n - 1)) {
            let k = choose|k: int|
                0 <= k < n - 1 && best_drop_score(six, n - 1) == hand_score(#[trigger] drop_one(six, k));
            assert(best_drop_score(six, n) == hand_score(drop_one(six, k)));
        }
    }
}

proof fn lemma_five_of_six_valid(six: Seq<Card>, d: int)
    requires
        six.len() == 6,
        distinct_valid(six),
        0 <= d < 6,
    ensures
        distinct_valid(six.remove(d)),
        1 <= hand_score(six.remove(d)) <= 7462,
{
    let h = six.remove(d);
    assert forall|i: int| 0 <= i < h.len() implies (#[trigger] h[i]).valid() by {
        if i < d {
            assert(h[i] == six[i]);
        } else {
            assert(h[i] == six[i + 1]);
        }
    }
    assert forall|i: int, j: int| 0 <= i < j < h.len() implies (#[trigger] h[i]).index_of() != (
    #[trigger] h[j]).index_of() by {
        let a = if i < d { i } else { i + 1 };
        let b = if j < d { j } else { j + 1 };
        assert(h[i] == six[a] && h[j] == six[b]);
    }
    lemma_hand_shape(h);
    lemma_score_category(rank_counts(h), all_same_suit(h));
}

/// On the turn the holding is scored by its best five cards: with hole cards `c1`, `c2`
/// and a four-card board, the score used for classification is at most the score of
/// every hand of five of the six cards (each of the six left out in turn), and is the
/// score of one of them; so a holding with any five-card hand scoring a full house or
/// better (2467 or less) is a `Monster`.
pub proof fn lemma_turn_holding_score(c1: Card, c2: Card, board: Seq<Card>)
    requires
        board.len() == 4,
        distinct_valid(hole_and_board(c1, c2, board)),
    ensures
        forall|d: int| 0 <= d < 6 ==> holding_score(c1, c2, board) <= hand_score(
            #[trigger] hole_and_board(c1, c2, board).remove(d),
        ),
        exists|d: int| 0 <= d < 6 && holding_score(c1, c2, board) == hand_score(
            #[trigger] hole_and_board(c1, c2, board).remove(d),
        ),
        (exists|d: int| 0 <= d < 6 && hand_score(#[trigger] hole_and_board(c1, c2, board).remove(d)) <= 2467)
            ==> classify_spec(c1, c2, board) == HandStrengthBucket::Monster,
{
    let six = hole_and_board(c1, c2, board);
    assert(board.take(4) =~= board);
    assert(seq![c1, c2] + board.take(4) =~= six);
    assert(holding_score(c1, c2, board) == best_drop_score(six, 6));
    lemma_best_drop_score(six, 6);
    assert forall|d: int| 0 <= d < 6 implies holding_score(c1, c2, board) <= hand_score(
        #[trigger] hole_and_board(c1, c2, board).remove(d),
    ) by {
        assert(drop_one(six, d) =~= six.remove(d));
        assert(best_drop_score(six, 6) <= hand_score(drop_one(six, d)));
    }
    lemma_five_of_six_valid(six, 0);
    assert(drop_one(six, 0) =~= six.remove(0));
    assert(best_drop_score(six, 6) <= hand_score(drop_one(six, 0)));
    let k = choose|k: int| 0 <= k < 6 && best_drop_score(six, 6) == hand_score(#[trigger] drop_one(six, k));
    assert(drop_one(six, k) =~= six.remove(k));
    assert(holding_score(c1, c2, board) == hand_score(hole_and_board(c1, c2, board).remove(k)));
    if exists|d: int| 0 <= d < 6 && hand_score(#[trigger] hole_and_board(c1, c2, board).remove(d)) <= 2467 {
        let d = choose|d: int| 0 <= d < 6 && hand_score(#[trigger] hole_and_board(c1, c2, board).remove(d)) <= 2467;
        assert(holding_score(c1, c2, board) <= hand_score(hole_and_board(c1, c2, board).remove(d)));
    }
}

/// The five cards of `cards` at the positions `a`, `b`, `c`, `d`, `e`.
pub open spec fn five_at(cards: Seq<Card>, a: int, b: int, c: int, d: int, e: int) -> Seq<Card> {
    seq![cards[a], cards[b], cards[c], cards[d], cards[e]]
}

/// From the river on the holding is scored by its best five of the seven cards made of the
/// hole cards and the first five board cards: the score is at most that of any five of
/// them (taken at increasing positions), and is the score of one such five.
pub proof fn lemma_river_holding_score(c1: Card, c2: Card, board: Seq<Card>)
    requires
        board.len() >= 5,
        distinct_valid(hole_and_board(c1, c2, board.take(5))),
    ensures
        forall|a: int, b: int, c: int, d: int, e: int|
            0 <= a < b < c < d < e < 7 ==> holding_score(c1, c2, board) <= hand_score(
                #[trigger] five_at(hole_and_board(c1, c2, board.take(5)), a, b, c, d, e),
            ),
        exists|k: int| 0 <= k < 21 && holding_score(c1, c2, board) == hand_score(
            #[trigger] combo_hand(hole_and_board(c1, c2, board.take(5)), k),
        ),
{
    let seven = hole_and_board(c1, c2, board.take(5));
    assert(holding_score(c1, c2, board) == seven_card_score(seven));
    assert forall|a: int, b: int, c: int, d: int, e: int|
        0 <= a < b < c < d < e < 7 implies holding_score(c1, c2, board) <= hand_score(
            #[trigger] five_at(seven, a, b, c, d, e),
        ) by {
        lemma_seven_card_score_at_most_subset(seven, a, b, c, d, e);
    }
    lemma_seven_card_score_is_best(seven);
}

/// What the made hand of a holding says of its bucket after the flop: three of a kind or
/// better is a `Monster`, two pair is `Strong`, one pair is never a `Draw` or `Monster`,
/// and a high-card holding is only ever a `Draw` or `Air`.
pub proof fn lemma_postflop_made_hands(score: int, c1: Card, c2: Card, board: Seq<Card>)
    requires
        board.len() > 0,
        category_of_score(score) is Some,
    ensures
        ({
            let cat = category_of_score(score)->Some_0;
            let b = postflop_bucket(score, c1, c2, board);
            &&& (cat == HandRankCategory::StraightFlush || cat == HandRankCategory::FourOfAKind || cat
                == HandRankCategory::FullHouse || cat == HandRankCategory::Flush || cat
                == HandRankCategory::Straight || cat == HandRankCategory::ThreeOfAKind) ==> b
                == HandStrengthBucket::Monster
            &&& cat == HandRankCategory::TwoPair ==> b == HandStrengthBucket::Strong
            &&& cat == HandRankCategory::OnePair ==> (b == HandStrengthBucket::Strong || b
                == HandStrengthBucket::Marginal || b == HandStrengthBucket::Air)
            &&& cat == HandRankCategory::HighCard ==> (b == HandStrengthBucket::Draw || b
                == HandStrengthBucket::Air)
        }),
{
}

/// The strength order of the buckets: Air, Draw, Marginal, Strong, Monster.
pub open spec fn bucket_strength(b: HandStrengthBucket) -> int {
    match b {
        HandStrengthBucket::Air => 0,
        HandStrengthBucket::Draw => 1,
        HandStrengthBucket::Marginal => 2,
        HandStrengthBucket::Strong => 3,
        HandStrengthBucket::Monster => 4,
    }
}

/// Preflop buckets respect the obvious orders: every pocket pair is at least `Marginal`
/// and a higher pair is never in a weaker bucket than a lower one; the same two ranks
/// suited are never weaker than offsuit; the order of the two cards does not matter.
pub proof fn lemma_preflop_bucket_order(r1: int, r2: int, p: int, q: int)
    requires
        0 <= r1 < 13,
        0 <= r2 < 13,
        0 <= q <= p < 13,
    ensures
        bucket_strength(preflop_bucket(p, p, false)) >= 2,
        bucket_strength(preflop_bucket(q, q, false)) <= bucket_strength(preflop_bucket(p, p, false)),
        bucket_strength(preflop_bucket(r1, r2, false)) <= bucket_strength(preflop_bucket(r1, r2, true)),
        preflop_bucket(r1, r2, true) == preflop_bucket(r2, r1, true),
        preflop_bucket(r1, r2, false) == preflop_bucket(r2, r1, false),
{
}

} // verus!



