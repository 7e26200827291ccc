//! Cactus-Kev equivalence-class evaluation of 5-card and 7-card poker hands.
//!
//! A 5-card hand gets a score in [1, 7462]; lower scores are stronger hands. Within each
//! category the classes are ordered by their ranks, compared from the most significant
//! group down, and numbered with colexicographic ranks of rank sets.
use vstd::prelude::*;
use crate::card::Card;
use crate::text::{str_to_chars, string_from_chars};

verus! {

// ---------------------------------------------------------------------------------------
// Combinatorics
// ---------------------------------------------------------------------------------------

/// Binomial coefficient `C(n, k)` by Pascal's rule.
pub open spec fn binom(n: int, k: int) -> int
    decreases n,
{
    if k == 0 {
        1
    } else if n <= 0 || k < 0 {
        0
    } else {
        binom(n - 1, k - 1) + binom(n - 1, k)
    }
}

/// Colexicographic rank of a set of ranks given in strictly descending order:
/// the number of sets of the same size whose largest differing element is smaller.
pub open spec fn colex(s: Seq<int>) -> int
    decreases s.len(),
{
    if s.len() == 0 {
        0
    } else {
        binom(s[0], s.len() as int) + colex(s.drop_first())
    }
}

/// `s` is strictly descending with every element in `[0, n)`.
pub open spec fn strictly_desc_below(s: Seq<int>, n: int) -> bool {
    &&& forall|i: int| 0 <= i < s.len() ==> 0 <= #[trigger] s[i] < n
    &&& forall|i: int, j: int| 0 <= i < j < s.len() ==> s[i] > s[j]
}

proof fn lemma_binom_nonneg(n: int, k: int)
    ensures
        binom(n, k) >= 0,
    decreases n,
{
    if k != 0 && n > 0 && k >= 0 {
        lemma_binom_nonneg(n - 1, k - 1);
        lemma_binom_nonneg(n - 1, k);
    }
}

proof fn lemma_binom_zero(n: int, k: int)
    requires
        0 <= n < k,
    ensures
        binom(n, k) == 0,
    decreases n,
{
    if n > 0 {
        lemma_binom_zero(n - 1, k - 1);
        lemma_binom_zero(n - 1, k);
    }
}

proof fn lemma_binom_mono(a: int, b: int, k: int)
    requires
        0 <= a <= b,
    ensures
        binom(a, k) <= binom(b, k),
    decreases b - a,
{
    if a < b {
        lemma_binom_mono(a, b - 1, k);
        if k != 0 && k > 0 {
            lemma_binom_nonneg(b - 1, k - 1);
        }
    }
}

/// Closed forms of the binomial coefficients used by the evaluator.
pub proof fn lemma_binom_closed(n: int)
    requires
        n >= 0,
    ensures
        binom(n, 1) == n,
        2 * binom(n, 2) == n * (n - 1),
        6 * binom(n, 3) == n * (n - 1) * (n - 2),
        24 * binom(n, 4) == n * (n - 1) * (n - 2) * (n - 3),
        120 * binom(n, 5) == n * (n - 1) * (n - 2) * (n - 3) * (n - 4),
    decreases n,
{
    if n == 0 {
        assert(binom(0, 1) == 0);
        assert(binom(0, 2) == 0);
        assert(binom(0, 3) == 0);
        assert(binom(0, 4) == 0);
        assert(binom(0, 5) == 0);
    } else {
        lemma_binom_closed(n - 1);
        let m = n - 1;
        assert(binom(n, 1) == binom(m, 0) + binom(m, 1));
        assert(binom(n, 2) == binom(m, 1) + binom(m, 2));
        assert(binom(n, 3) == binom(m, 2) + binom(m, 3));
        assert(binom(n, 4) == binom(m, 3) + binom(m, 4));
        assert(binom(n, 5) == binom(m, 4) + binom(m, 5));
        assert(2 * binom(n, 2) == n * (n - 1)) by (nonlinear_arith)
            requires
                binom(n, 2) == binom(m, 1) + binom(m, 2),
                binom(m, 1) == m,
                2 * binom(m, 2) == m * (m - 1),
                m == n - 1,
        ;
        assert(6 * binom(n, 3) == n * (n - 1) * (n - 2)) by (nonlinear_arith)
            requires
                binom(n, 3) == binom(m, 2) + binom(m, 3),
                2 * binom(m, 2) == m * (m - 1),
                6 * binom(m, 3) == m * (m - 1) * (m - 2),
                m == n - 1,
        ;
        assert(24 * binom(n, 4) == n * (n - 1) * (n - 2) * (n - 3)) by (nonlinear_arith)
            requires
                binom(n, 4) == binom(m, 3) + binom(m, 4),
                6 * binom(m, 3) == m * (m - 1) * (m - 2),
                24 * binom(m, 4) == m * (m - 1) * (m - 2) * (m - 3),
                m == n - 1,
        ;
        assert(120 * binom(n, 5) == n * (n - 1) * (n - 2) * (n - 3) * (n - 4)) by (nonlinear_arith)
            requires
                binom(n, 5) == binom(m, 4) + binom(m, 5),
                24 * binom(m, 4) == m * (m - 1) * (m - 2) * (m - 3),
                120 * binom(m, 5) == m * (m - 1) * (m - 2) * (m - 3) * (m - 4),
                m == n - 1,
        ;
    }
}

/// The colexicographic rank of a strictly descending sequence is below `C(s[0] + 1, len)`.
proof fn lemma_colex_bound(s: Seq<int>, n: int)
    requires
        strictly_desc_below(s, n),
        s.len() > 0,
    ensures
        0 <= colex(s) < binom(s[0] + 1, s.len() as int),
        colex(s) < binom(n, s.len() as int),
    decreases s.len(),
{
    let k = s.len() as int;
    let rest = s.drop_first();
    lemma_binom_nonneg(s[0], k);
    if k == 1 {
        assert(colex(rest) == 0);
        assert(binom(s[0] + 1, 1) == binom(s[0], 0) + binom(s[0], 1));
        lemma_binom_nonneg(s[0], 1);
    } else {
        assert(strictly_desc_below(rest, n)) by {
            assert forall|i: int| 0 <= i < rest.len() implies 0 <= #[trigger] rest[i] < n by {
                assert(rest[i] == s[i + 1]);
            }
            assert forall|i: int, j: int| 0 <= i < j < rest.len() implies rest[i] > rest[j] by {
                assert(rest[i] == s[i + 1] && rest[j] == s[j + 1]);
            }
        }
        lemma_colex_bound(rest, n);
        assert(rest[0] == s[1]);
        assert(s[1] < s[0]);
        lemma_binom_mono(rest[0] + 1, s[0], k - 1);
        assert(binom(s[0] + 1, k) == binom(s[0], k - 1) + binom(s[0], k));
    }
    assert(s[0] < n);
    lemma_binom_mono(s[0] + 1, n, k);
}

// ---------------------------------------------------------------------------------------
// Hand model: rank counts and rank groups
// ---------------------------------------------------------------------------------------

/// Number of cards of the sequence whose rank index is `r`.
pub open spec fn rank_count(cards: Seq<Card>, r: int) -> int
    decreases cards.len(),
{
    if cards.len() == 0 {
        0
    } else {
        rank_count(cards.drop_last(), r) + if cards.last().rank_idx() == r { 1int } else { 0int }
    }
}

/// The rank counts of a hand, indexed by rank (Deuce = 0, ..., Ace = 12).
pub open spec fn rank_counts(cards: Seq<Card>) -> Seq<int> {
    Seq::new(13, |r: int| rank_count(cards, r))
}

/// All cards of the hand share one suit.
pub open spec fn all_same_suit(cards: Seq<Card>) -> bool {
    forall|i: int| 0 <= i < cards.len() ==> (#[trigger] cards[i]).suit_idx() == cards[0].suit_idx()
}

/// The ranks below `n` that occur exactly `m` times, in descending order.
pub open spec fn ranks_with_count(c: Seq<int>, m: int, n: int) -> Seq<int>
    decreases n,
{
    if n <= 0 {
        Seq::empty()
    } else if c[n - 1] == m {
        seq![n - 1] + ranks_with_count(c, m, n - 1)
    } else {
        ranks_with_count(c, m, n - 1)
    }
}

/// The five ranks of a straight topped by `t`, descending.
pub open spec fn straight_ranks(t: int) -> Seq<int> {
    seq![t, t - 1, t - 2, t - 3, t - 4]
}

/// The five ranks of the wheel, A-5-4-3-2, in descending rank order.
pub open spec fn wheel_ranks() -> Seq<int> {
    seq![12, 3, 2, 1, 0]
}

/// The top rank of the straight that five distinct ranks form (the wheel counts as 5-high),
/// or -1 when they form none.
pub open spec fn straight_top(s: Seq<int>) -> int {
    if s.len() == 5 && s[0] - s[4] == 4 {
        s[0]
    } else if s =~= wheel_ranks() {
        3
    } else {
        -1
    }
}

/// Number of the ten straights whose rank set has a colexicographic rank above `v`.
pub open spec fn straights_above(v: int) -> int {
    (if colex(wheel_ranks()) > v { 1int } else { 0int })
        + (if colex(straight_ranks(4)) > v { 1int } else { 0int })
        + (if colex(straight_ranks(5)) > v { 1int } else { 0int })
        + (if colex(straight_ranks(6)) > v { 1int } else { 0int })
        + (if colex(straight_ranks(7)) > v { 1int } else { 0int })
        + (if colex(straight_ranks(8)) > v { 1int } else { 0int })
        + (if colex(straight_ranks(9)) > v { 1int } else { 0int })
        + (if colex(straight_ranks(10)) > v { 1int } else { 0int })
        + (if colex(straight_ranks(11)) > v { 1int } else { 0int })
        + (if colex(straight_ranks(12)) > v { 1int } else { 0int })
}

/// Position of five distinct non-straight ranks among all such rank sets, strongest first:
/// the number of the `C(13, 5) - 10 = 1277` non-straight rank sets that beat them.
pub open spec fn distinct_ranks_index(s: Seq<int>) -> int {
    (binom(13, 5) - 1 - colex(s)) - straights_above(colex(s))
}

/// The ranks of `s` renumbered among the twelve ranks other than `x`.
pub open spec fn skip_rank(s: Seq<int>, x: int) -> Seq<int> {
    s.map_values(|r: int| if r > x { r - 1 } else { r })
}

/// Number of elements of `s` greater than `k`.
pub open spec fn count_above(s: Seq<int>, k: int) -> int
    decreases s.len(),
{
    if s.len() == 0 {
        0
    } else {
        count_above(s.drop_last(), k) + if s.last() > k { 1int } else { 0int }
    }
}

/// Number of ranks above `k` that are not in `excluded` (a set of ranks listed once each).
pub open spec fn ranks_above_excluding(k: int, excluded: Seq<int>) -> int {
    (12 - k) - count_above(excluded, k)
}

/// The Cactus-Kev score of a hand with the given rank counts and flush flag.
pub open spec fn score_from_counts(c: Seq<int>, flush: bool) -> int {
    let quads = ranks_with_count(c, 4, 13);
    let trips = ranks_with_count(c, 3, 13);
    let pairs = ranks_with_count(c, 2, 13);
    let singles = ranks_with_count(c, 1, 13);
    let top = straight_top(singles);
    if flush && top >= 0 {
        // Straight flush: 1 (royal) to 10 (steel wheel).
        1 + (12 - top)
    } else if quads.len() == 1 {
        // Four of a kind: by quad rank, then kicker.
        11 + (12 - quads[0]) * 12 + ranks_above_excluding(singles[0], quads)
    } else if trips.len() == 1 && pairs.len() == 1 {
        // Full house: by trip rank, then pair rank.
        167 + (12 - trips[0]) * 12 + ranks_above_excluding(pairs[0], trips)
    } else if flush {
        323 + distinct_ranks_index(singles)
    } else if top >= 0 {
        1600 + (12 - top)
    } else if trips.len() == 1 {
        // Three of a kind: by trip rank, then the two kickers.
        1610 + (12 - trips[0]) * 66 + (binom(12, 2) - 1 - colex(skip_rank(singles, trips[0])))
    } else if pairs.len() == 2 {
        // Two pair: by the pair of pair ranks, then kicker.
        2468 + (binom(13, 2) - 1 - colex(pairs)) * 11 + ranks_above_excluding(singles[0], pairs)
    } else if pairs.len() == 1 {
        // One pair: by pair rank, then the three kickers.
        3326 + (12 - pairs[0]) * 220 + (binom(12, 3) - 1 - colex(skip_rank(singles, pairs[0])))
    } else {
        6186 + distinct_ranks_index(singles)
    }
}

/// The Cactus-Kev score of a 5-card hand.
pub open spec fn hand_score(cards: Seq<Card>) -> int {
    score_from_counts(rank_counts(cards), all_same_suit(cards))
}

// ---------------------------------------------------------------------------------------
// Properties of the hand model
// ---------------------------------------------------------------------------------------

/// Every rank count lies in `[0, 4]`.
pub open spec fn counts_bounded(c: Seq<int>) -> bool {
    c.len() == 13 && forall|r: int| 0 <= r < 13 ==> 0 <= #[trigger] c[r] <= 4
}

/// Sum of the first `n` rank counts.
pub open spec fn count_sum(c: Seq<int>, n: int) -> int
    decreases n,
{
    if n <= 0 {
        0
    } else {
        count_sum(c, n - 1) + c[n - 1]
    }
}

proof fn lemma_ranks_with_count(c: Seq<int>, m: int, n: int)
    requires
        0 <= n <= c.len(),
    ensures
        strictly_desc_below(ranks_with_count(c, m, n), n),
        forall|r: int| ranks_with_count(c, m, n).contains(r) <==> 0 <= r < n && c[r] == m,
        forall|i: int|
            0 <= i < ranks_with_count(c, m, n).len() ==> c[#[trigger] ranks_with_count(
                c,
                m,
                n,
            )[i]] == m,
        ranks_with_count(c, m, n).len() <= n,
    decreases n,
{
    if n > 0 {
        lemma_ranks_with_count(c, m, n - 1);
        let prev = ranks_with_count(c, m, n - 1);
        if c[n - 1] == m {
            let cur = seq![n - 1] + prev;
            assert(ranks_with_count(c, m, n) == cur);
            assert forall|i: int| 0 <= i < cur.len() implies 0 <= #[trigger] cur[i] < n by {
                if i > 0 {
                    assert(cur[i] == prev[i - 1]);
                }
            }
            assert forall|i: int, j: int| 0 <= i < j < cur.len() implies cur[i] > cur[j] by {
                assert(cur[j] == prev[j - 1]);
                if i > 0 {
                    assert(cur[i] == prev[i - 1]);
                }
            }
            assert forall|r: int| cur.contains(r) <==> 0 <= r < n && c[r] == m by {
                if cur.contains(r) {
                    let i = choose|i: int| 0 <= i < cur.len() && cur[i] == r;
                    if i > 0 {
                        assert(cur[i] == prev[i - 1]);
                        assert(prev.contains(r));
                    }
                }
                if 0 <= r < n && c[r] == m {
                    if r == n - 1 {
                        assert(cur[0] == r);
                    } else {
                        assert(prev.contains(r));
                        let i = choose|i: int| 0 <= i < prev.len() && prev[i] == r;
                        assert(cur[i + 1] == r);
                    }
                }
            }
            assert forall|i: int| 0 <= i < cur.len() implies c[#[trigger] cur[i]] == m by {
                if i > 0 {
                    assert(cur[i] == prev[i - 1]);
                }
            }
        } else {
            assert forall|r: int| prev.contains(r) <==> 0 <= r < n && c[r] == m by {
            }
        }
    }
}

proof fn lemma_count_sum_groups(c: Seq<int>, n: int)
    requires
        counts_bounded(c),
        0 <= n <= 13,
    ensures
        count_sum(c, n) == 4 * ranks_with_count(c, 4, n).len() + 3 * ranks_with_count(c, 3, n).len()
            + 2 * ranks_with_count(c, 2, n).len() + ranks_with_count(c, 1, n).len(),
    decreases n,
{
    if n > 0 {
        lemma_count_sum_groups(c, n - 1);
        assert(0 <= c[n - 1] <= 4);
    }
}

/// The rank groups of a hand whose counts are bounded and sum to five.
pub open spec fn five_card_shape(c: Seq<int>) -> bool {
    counts_bounded(c) && count_sum(c, 13) == 5
}

proof fn lemma_shape_lengths(c: Seq<int>)
    requires
        five_card_shape(c),
    ensures
        ({
            let q = ranks_with_count(c, 4, 13).len();
            let t = ranks_with_count(c, 3, 13).len();
            let p = ranks_with_count(c, 2, 13).len();
            let s = ranks_with_count(c, 1, 13).len();
            &&& 4 * q + 3 * t + 2 * p + s == 5
            &&& q <= 1 && t <= 1 && p <= 2 && s <= 5
        }),
{
    lemma_count_sum_groups(c, 13);
}

proof fn lemma_binom_values()
    ensures
        binom(12, 2) == 66,
        binom(13, 2) == 78,
        binom(12, 3) == 220,
        binom(13, 5) == 1287,
        colex(wheel_ranks()) == 792,
        colex(straight_ranks(4)) == 0,
        colex(straight_ranks(5)) == 5,
        colex(straight_ranks(6)) == 20,
        colex(straight_ranks(7)) == 55,
        colex(straight_ranks(8)) == 125,
        colex(straight_ranks(9)) == 251,
        colex(straight_ranks(10)) == 461,
        colex(straight_ranks(11)) == 791,
        colex(straight_ranks(12)) == 1286,
{
    lemma_binom_closed(0);
    lemma_binom_closed(1);
    lemma_binom_closed(2);
    lemma_binom_closed(3);
    lemma_binom_closed(4);
    lemma_binom_closed(5);
    lemma_binom_closed(6);
    lemma_binom_closed(7);
    lemma_binom_closed(8);
    lemma_binom_closed(9);
    lemma_binom_closed(10);
    lemma_binom_closed(11);
    lemma_binom_closed(12);
    lemma_binom_closed(13);
    assert(binom(0, 1) == 0 && binom(1, 2) == 0 && binom(2, 3) == 0 && binom(3, 4) == 0
        && binom(4, 5) == 0);
    assert(binom(1, 1) == 1 && binom(2, 2) == 1 && binom(3, 3) == 1 && binom(4, 4) == 1
        && binom(5, 5) == 1);
    assert(binom(2, 1) == 2 && binom(3, 2) == 3 && binom(4, 3) == 4 && binom(5, 4) == 5
        && binom(6, 5) == 6);
    assert(binom(3, 1) == 3 && binom(4, 2) == 6 && binom(5, 3) == 10 && binom(6, 4) == 15
        && binom(7, 5) == 21);
    assert(binom(4, 1) == 4 && binom(5, 2) == 10 && binom(6, 3) == 20 && binom(7, 4) == 35
        && binom(8, 5) == 56);
    assert(binom(5, 1) == 5 && binom(6, 2) == 15 && binom(7, 3) == 35 && binom(8, 4) == 70
        && binom(9, 5) == 126);
    assert(binom(6, 1) == 6 && binom(7, 2) == 21 && binom(8, 3) == 56 && binom(9, 4) == 126
        && binom(10, 5) == 252);
    assert(binom(7, 1) == 7 && binom(8, 2) == 28 && binom(9, 3) == 84 && binom(10, 4) == 210
        && binom(11, 5) == 462);
    assert(binom(8, 1) == 8 && binom(9, 2) == 36 && binom(10, 3) == 120 && binom(11, 4) == 330
        && binom(12, 5) == 792);
    assert(binom(12, 2) == 66 && binom(13, 2) == 78 && binom(12, 3) == 220 && binom(13, 5)
        == 1287);
    assert(binom(0, 1) == 0 && binom(1, 2) == 0 && binom(2, 3) == 0 && binom(3, 4) == 0);
    reveal_with_fuel(colex, 6);
}

proof fn lemma_colex_nonneg(s: Seq<int>)
    ensures
        colex(s) >= 0,
        s.len() > 0 ==> colex(s) >= binom(s[0], s.len() as int),
    decreases s.len(),
{
    if s.len() > 0 {
        lemma_colex_nonneg(s.drop_first());
        lemma_binom_nonneg(s[0], s.len() as int);
    }
}

proof fn lemma_distinct_index(s: Seq<int>)
    requires
        strictly_desc_below(s, 13),
        s.len() == 5,
        straight_top(s) < 0,
    ensures
        0 <= distinct_ranks_index(s) <= 1276,
{
    lemma_binom_values();
    lemma_colex_bound(s, 13);
    lemma_colex_nonneg(s);
    if s[0] <= 4 {
        assert(s[1] < s[0] && s[2] < s[1] && s[3] < s[2] && s[4] < s[3] && s[4] >= 0);
        assert(s[0] - s[4] == 4);
    } else {
        lemma_binom_mono(5, s[0], 5);
        lemma_binom_closed(5);
    }
}

proof fn lemma_skip_rank(s: Seq<int>, x: int)
    requires
        strictly_desc_below(s, 13),
        0 <= x < 13,
        !s.contains(x),
    ensures
        strictly_desc_below(skip_rank(s, x), 12),
        skip_rank(s, x).len() == s.len(),
{
    let t = skip_rank(s, x);
    assert forall|i: int| 0 <= i < t.len() implies 0 <= #[trigger] t[i] < 12 by {
        assert(s[i] != x);
    }
    assert forall|i: int, j: int| 0 <= i < j < t.len() implies t[i] > t[j] by {
        assert(s[i] != x && s[j] != x);
    }
}

/// The category of the hand described by rank counts and a flush flag.
pub open spec fn category_from_counts(c: Seq<int>, flush: bool) -> HandRankCategory {
    let quads = ranks_with_count(c, 4, 13);
    let trips = ranks_with_count(c, 3, 13);
    let pairs = ranks_with_count(c, 2, 13);
    let top = straight_top(ranks_with_count(c, 1, 13));
    if flush && top >= 0 {
        HandRankCategory::StraightFlush
    } else if quads.len() == 1 {
        HandRankCategory::FourOfAKind
    } else if trips.len() == 1 && pairs.len() == 1 {
        HandRankCategory::FullHouse
    } else if flush {
        HandRankCategory::Flush
    } else if top >= 0 {
        HandRankCategory::Straight
    } else if trips.len() == 1 {
        HandRankCategory::ThreeOfAKind
    } else if pairs.len() == 2 {
        HandRankCategory::TwoPair
    } else if pairs.len() == 1 {
        HandRankCategory::OnePair
    } else {
        HandRankCategory::HighCard
    }
}

/// The category whose score range holds `score`, if any.
pub open spec fn category_of_score(score: int) -> Option<HandRankCategory> {
    if 1 <= score <= 10 {
        Some(HandRankCategory::StraightFlush)
    } else if 11 <= score <= 166 {
        Some(HandRankCategory::FourOfAKind)
    } else if 167 <= score <= 322 {
        Some(HandRankCategory::FullHouse)
    } else if 323 <= score <= 1599 {
        Some(HandRankCategory::Flush)
    } else if 1600 <= score <= 1609 {
        Some(HandRankCategory::Straight)
    } else if 1610 <= score <= 2467 {
        Some(HandRankCategory::ThreeOfAKind)
    } else if 2468 <= score <= 3325 {
        Some(HandRankCategory::TwoPair)
    } else if 3326 <= score <= 6185 {
        Some(HandRankCategory::OnePair)
    } else if 6186 <= score <= 7462 {
        Some(HandRankCategory::HighCard)
    } else {
        None
    }
}

/// The score of a hand with five cards' worth of rank counts lies in the score range of its
/// category (and so in [1, 7462]).
pub proof fn lemma_score_category(c: Seq<int>, flush: bool)
    requires
        five_card_shape(c),
        flush ==> ranks_with_count(c, 1, 13).len() == 5,
    ensures
        1 <= score_from_counts(c, flush) <= 7462,
        category_of_score(score_from_counts(c, flush)) == Some(category_from_counts(c, flush)),
{
    let quads = ranks_with_count(c, 4, 13);
    let trips = ranks_with_count(c, 3, 13);
    let pairs = ranks_with_count(c, 2, 13);
    let singles = ranks_with_count(c, 1, 13);
    lemma_shape_lengths(c);
    lemma_ranks_with_count(c, 4, 13);
    lemma_ranks_with_count(c, 3, 13);
    lemma_ranks_with_count(c, 2, 13);
    lemma_ranks_with_count(c, 1, 13);
    lemma_binom_values();
    reveal_with_fuel(count_above, 3);
    let top = straight_top(singles);
    if singles.len() == 5 {
        assert(top >= 0 ==> 3 <= top <= 12) by {
            if singles[0] - singles[4] == 4 {
                assert(singles[4] >= 0);
            }
        }
    } else {
        assert(top < 0);
    }
    if flush && top >= 0 {
    } else if quads.len() == 1 {
        assert(singles.len() == 1);
        assert(singles[0] != quads[0]) by {
            assert(c[singles[0]] == 1);
            assert(c[quads[0]] == 4);
        }
        assert(count_above(quads, singles[0]) == if quads[0] > singles[0] { 1int } else { 0int });
    } else if trips.len() == 1 && pairs.len() == 1 {
        assert(pairs[0] != trips[0]) by {
            assert(c[pairs[0]] == 2);
            assert(c[trips[0]] == 3);
        }
        assert(count_above(trips, pairs[0]) == if trips[0] > pairs[0] { 1int } else { 0int });
    } else if flush {
        lemma_distinct_index(singles);
    } else if top >= 0 {
    } else if trips.len() == 1 {
        assert(singles.len() == 2);
        assert(!singles.contains(trips[0])) by {
            if singles.contains(trips[0]) {
                assert(c[trips[0]] == 3);
            }
        }
        lemma_skip_rank(singles, trips[0]);
        lemma_colex_bound(skip_rank(singles, trips[0]), 12);
    } else if pairs.len() == 2 {
        assert(singles.len() == 1);
        lemma_colex_bound(pairs, 13);
        assert(singles[0] != pairs[0] && singles[0] != pairs[1]) by {
            assert(c[singles[0]] == 1);
            assert(c[pairs[0]] == 2);
            assert(c[pairs[1]] == 2);
        }
        assert(count_above(pairs, singles[0]) == (if pairs[0] > singles[0] { 1int } else { 0int })
            + (if pairs[1] > singles[0] { 1int } else { 0int }));
    } else if pairs.len() == 1 {
        assert(singles.len() == 3);
        assert(!singles.contains(pairs[0])) by {
            if singles.contains(pairs[0]) {
                assert(c[pairs[0]] == 2);
            }
        }
        lemma_skip_rank(singles, pairs[0]);
        lemma_colex_bound(skip_rank(singles, pairs[0]), 12);
    } else {
        assert(singles.len() == 5);
        lemma_distinct_index(singles);
    }
}

/// Standard poker hand categories ranked from strongest to weakest.
#[derive(Debug, Copy, Clone, PartialEq, Eq, PartialOrd, Ord, Hash, Structural)]
pub enum HandRankCategory {
    StraightFlush,
    FourOfAKind,
    FullHouse,
    Flush,
    Straight,
    ThreeOfAKind,
    TwoPair,
    OnePair,
    HighCard,
}

impl HandRankCategory {
    /// Maps a Cactus-Kev equivalence score in [1, 7462] to its corresponding HandRankCategory.
    pub fn from_score(score: u16) -> (r: Option<Self>)
        ensures
            r == category_of_score(score as int),
    {
        if 1 <= score && score <= 10 {
            Some(HandRankCategory::StraightFlush)
        } else if 11 <= score && score <= 166 {
            Some(HandRankCategory::FourOfAKind)
        } else if 167 <= score && score <= 322 {
            Some(HandRankCategory::FullHouse)
        } else if 323 <= score && score <= 1599 {
            Some(HandRankCategory::Flush)
        } else if 1600 <= score && score <= 1609 {
            Some(HandRankCategory::Straight)
        } else if 1610 <= score && score <= 2467 {
            Some(HandRankCategory::ThreeOfAKind)
        } else if 2468 <= score && score <= 3325 {
            Some(HandRankCategory::TwoPair)
        } else if 3326 <= score && score <= 6185 {
            Some(HandRankCategory::OnePair)
        } else if 6186 <= score && score <= 7462 {
            Some(HandRankCategory::HighCard)
        } else {
            None
        }
    }

    /// The name of the category, such as `"Straight Flush"`.
    pub fn to_string(&self) -> (s: String)
        ensures
            s@ == category_name(*self),
    {
        let name = match self {
            HandRankCategory::StraightFlush => "Straight Flush",
            HandRankCategory::FourOfAKind => "Four of a Kind",
            HandRankCategory::FullHouse => "Full House",
            HandRankCategory::Flush => "Flush",
            HandRankCategory::Straight => "Straight",
            HandRankCategory::ThreeOfAKind => "Three of a Kind",
            HandRankCategory::TwoPair => "Two Pair",
            HandRankCategory::OnePair => "One Pair",
            HandRankCategory::HighCard => "High Card",
        };
        string_from_chars(str_to_chars(name).as_slice())
    }
}

/// The name of a hand category.
pub open spec fn category_name(c: HandRankCategory) -> Seq<char> {
    match c {
        HandRankCategory::StraightFlush => "Straight Flush"@,
        HandRankCategory::FourOfAKind => "Four of a Kind"@,
        HandRankCategory::FullHouse => "Full House"@,
        HandRankCategory::Flush => "Flush"@,
        HandRankCategory::Straight => "Straight"@,
        HandRankCategory::ThreeOfAKind => "Three of a Kind"@,
        HandRankCategory::TwoPair => "Two Pair"@,
        HandRankCategory::OnePair => "One Pair"@,
        HandRankCategory::HighCard => "High Card"@,
    }
}

// ---------------------------------------------------------------------------------------
// Facts about hands of distinct cards
// ---------------------------------------------------------------------------------------

/// The cards of the sequence are valid and pairwise distinct.
pub open spec fn distinct_valid(cards: Seq<Card>) -> bool {
    &&& forall|i: int| 0 <= i < cards.len() ==> (#[trigger] cards[i]).valid()
    &&& forall|i: int, j: int|
        0 <= i < j < cards.len() ==> (#[trigger] cards[i]).index_of() != (#[trigger] cards[j]).index_of()
}

proof fn lemma_rank_count_range(cards: Seq<Card>, r: int)
    ensures
        0 <= rank_count(cards, r) <= cards.len(),
        rank_count(cards, r) == cards.len() ==> forall|j: int|
            0 <= j < cards.len() ==> (#[trigger] cards[j]).rank_idx() == r,
        rank_count(cards, r) >= 1 ==> exists|j: int|
            0 <= j < cards.len() && (#[trigger] cards[j]).rank_idx() == r,
        rank_count(cards, r) >= 2 ==> exists|j: int, k: int|
            0 <= j < k < cards.len() && (#[trigger] cards[j]).rank_idx() == r && (#[trigger] cards[k]).rank_idx() == r,
    decreases cards.len(),
{
    if cards.len() > 0 {
        let pre = cards.drop_last();
        lemma_rank_count_range(pre, r);
        assert forall|j: int| 0 <= j < pre.len() implies pre[j] == cards[j] by {}
        if rank_count(cards, r) == cards.len() {
            assert forall|j: int| 0 <= j < cards.len() implies (#[trigger] cards[j]).rank_idx() == r by {
                if j < pre.len() {
                    assert(pre[j] == cards[j]);
                }
            }
        }
        if rank_count(cards, r) >= 1 && cards.last().rank_idx() != r {
            let j = choose|j: int| 0 <= j < pre.len() && (#[trigger] pre[j]).rank_idx() == r;
            assert(cards[j] == pre[j]);
        }
        if rank_count(cards, r) >= 2 {
            if cards.last().rank_idx() == r {
                let j = choose|j: int| 0 <= j < pre.len() && (#[trigger] pre[j]).rank_idx() == r;
                assert(cards[j] == pre[j]);
                assert(cards[cards.len() - 1] == cards.last());
            } else {
                let (j, k) = choose|j: int, k: int|
                    0 <= j < k < pre.len() && (#[trigger] pre[j]).rank_idx() == r && (#[trigger] pre[k]).rank_idx() == r;
                assert(cards[j] == pre[j] && cards[k] == pre[k]);
            }
        }
    }
}

/// A rank count is never negative.
pub proof fn lemma_rank_count_nonneg(cards: Seq<Card>, r: int)
    ensures
        rank_count(cards, r) >= 0,
{
    lemma_rank_count_range(cards, r);
}

/// The rank counts of valid cards sum to the number of cards.
proof fn lemma_count_sum_cards(cards: Seq<Card>)
    requires
        forall|i: int| 0 <= i < cards.len() ==> (#[trigger] cards[i]).valid(),
    ensures
        count_sum(rank_counts(cards), 13) == cards.len(),
    decreases cards.len(),
{
    if cards.len() == 0 {
        lemma_count_sum_zero(rank_counts(cards), 13);
    } else {
        let pre = cards.drop_last();
        assert forall|i: int| 0 <= i < pre.len() implies (#[trigger] pre[i]).valid() by {
            assert(pre[i] == cards[i]);
        }
        lemma_count_sum_cards(pre);
        assert(cards[cards.len() - 1].valid());
        lemma_count_sum_step(rank_counts(cards), rank_counts(pre), cards.last().rank_idx() as int, 13);
    }
}

proof fn lemma_count_sum_zero(c: Seq<int>, n: int)
    requires
        0 <= n <= c.len(),
        forall|r: int| 0 <= r < n ==> c[r] == 0,
    ensures
        count_sum(c, n) == 0,
    decreases n,
{
    if n > 0 {
        lemma_count_sum_zero(c, n - 1);
    }
}

proof fn lemma_count_sum_step(c: Seq<int>, d: Seq<int>, x: int, n: int)
    requires
        0 <= n <= 13,
        c.len() == 13,
        d.len() == 13,
        forall|r: int| 0 <= r < 13 ==> #[trigger] c[r] == d[r] + if r == x { 1int } else { 0int },
    ensures
        count_sum(c, n) == count_sum(d, n) + if 0 <= x < n { 1int } else { 0int },
    decreases n,
{
    if n > 0 {
        lemma_count_sum_step(c, d, x, n - 1);
    }
}

/// Five distinct valid cards have rank counts of a five-card hand; a flush among them has
/// five distinct ranks.
pub proof fn lemma_hand_shape(cards: Seq<Card>)
    requires
        cards.len() == 5,
        distinct_valid(cards),
    ensures
        five_card_shape(rank_counts(cards)),
        all_same_suit(cards) ==> ranks_with_count(rank_counts(cards), 1, 13).len() == 5,
{
    let c = rank_counts(cards);
    assert forall|r: int| 0 <= r < 13 implies 0 <= #[trigger] c[r] <= 4 by {
        lemma_rank_count_range(cards, r);
        if rank_count(cards, r) == 5 {
            assert(cards[0].rank_idx() == r && cards[1].rank_idx() == r && cards[2].rank_idx() == r
                && cards[3].rank_idx() == r && cards[4].rank_idx() == r);
            assert(cards[0].index_of() != cards[1].index_of());
            assert(cards[0].index_of() != cards[2].index_of());
            assert(cards[0].index_of() != cards[3].index_of());
            assert(cards[0].index_of() != cards[4].index_of());
            assert(cards[1].index_of() != cards[2].index_of());
            assert(cards[1].index_of() != cards[3].index_of());
            assert(cards[1].index_of() != cards[4].index_of());
            assert(cards[2].index_of() != cards[3].index_of());
            assert(cards[2].index_of() != cards[4].index_of());
            assert(cards[3].index_of() != cards[4].index_of());
            assert(cards[0].valid() && cards[1].valid() && cards[2].valid() && cards[3].valid()
                && cards[4].valid());
            cards[0].lemma_valid();
            cards[1].lemma_valid();
            cards[2].lemma_valid();
            cards[3].lemma_valid();
            cards[4].lemma_valid();
        }
    }
    lemma_count_sum_cards(cards);
    if all_same_suit(cards) {
        assert forall|r: int| 0 <= r < 13 implies #[trigger] c[r] <= 1 by {
            lemma_rank_count_range(cards, r);
            if rank_count(cards, r) >= 2 {
                let (j, k) = choose|j: int, k: int|
                    0 <= j < k < cards.len() && (#[trigger] cards[j]).rank_idx() == r && (#[trigger] cards[k]).rank_idx() == r;
                assert(cards[j].suit_idx() == cards[0].suit_idx());
                assert(cards[k].suit_idx() == cards[0].suit_idx());
                assert(cards[j].index_of() != cards[k].index_of());
            }
        }
        lemma_shape_lengths(c);
        lemma_ranks_with_count(c, 4, 13);
        lemma_ranks_with_count(c, 3, 13);
        lemma_ranks_with_count(c, 2, 13);
        if ranks_with_count(c, 4, 13).len() > 0 {
            assert(c[ranks_with_count(c, 4, 13)[0]] == 4);
        }
        if ranks_with_count(c, 3, 13).len() > 0 {
            assert(c[ranks_with_count(c, 3, 13)[0]] == 3);
        }
        if ranks_with_count(c, 2, 13).len() > 0 {
            assert(c[ranks_with_count(c, 2, 13)[0]] == 2);
        }
    }
}

// ---------------------------------------------------------------------------------------
// Executable evaluation
// ---------------------------------------------------------------------------------------

/// A vector of ranks viewed as mathematical integers.
pub open spec fn as_ints(v: Seq<u32>) -> Seq<int> {
    v.map_values(|x: u32| x as int)
}

/// A vector of rank counts viewed as mathematical integers.
pub open spec fn counts_as_ints(v: Seq<u8>) -> Seq<int> {
    v.map_values(|x: u8| x as int)
}

fn binom_small(n: u32, k: u32) -> (r: u32)
    requires
        n <= 13,
        1 <= k <= 5,
    ensures
        r == binom(n as int, k as int),
        r <= 1287,
{
    proof {
        lemma_binom_closed(n as int);
        lemma_binom_mono(n as int, 13, k as int);
        lemma_binom_values();
        lemma_binom_closed(13);
    }
    if n < k {
        proof {
            lemma_binom_zero(n as int, k as int);
        }
        return 0;
    }
    proof {
        assert(n * (n - 1) <= 13 * 12) by (nonlinear_arith)
            requires
                1 <= n <= 13,
        ;
        assert(n * (n - 1) * (n - 2) <= 13 * 12 * 11) by (nonlinear_arith)
            requires
                2 <= n <= 13 || n == 1,
        ;
        assert(n * (n - 1) * (n - 2) * (n - 3) <= 13 * 12 * 11 * 10) by (nonlinear_arith)
            requires
                1 <= n <= 13,
                n >= 3 || k <= 2,
                k >= 4 ==> n >= 4,
        ;
    }
    if k == 1 {
        n
    } else if k == 2 {
        n * (n - 1) / 2
    } else if k == 3 {
        n * (n - 1) * (n - 2) / 6
    } else if k == 4 {
        n * (n - 1) * (n - 2) * (n - 3) / 24
    } else {
        proof {
            assert(n * (n - 1) * (n - 2) * (n - 3) * (n - 4) <= 13 * 12 * 11 * 10 * 9) by (nonlinear_arith)
                requires
                    5 <= n <= 13,
            ;
        }
        n * (n - 1) * (n - 2) * (n - 3) * (n - 4) / 120
    }
}

fn colex_of(v: &Vec<u32>) -> (r: u32)
    requires
        1 <= v@.len() <= 5,
        strictly_desc_below(as_ints(v@), 13),
    ensures
        r == colex(as_ints(v@)),
        r < binom(13, v@.len() as int),
        r < 1287,
{
    let ghost x = as_ints(v@);
    proof {
        lemma_colex_bound(x, 13);
        lemma_binom_values();
        lemma_binom_mono(13, 13, x.len() as int);
        lemma_binom_closed(13);
        assert(x.skip(0) =~= x);
    }
    let n = v.len();
    let mut acc: u32 = 0;
    let mut i: usize = 0;
    while i < n
        invariant
            n == v@.len(),
            x == as_ints(v@),
            1 <= n <= 5,
            i <= n,
            strictly_desc_below(x, 13),
            colex(x) < 1287,
            acc + colex(x.skip(i as int)) == colex(x),
        decreases n - i,
    {
        let ghost tail = x.skip(i as int);
        proof {
            assert(tail.drop_first() =~= x.skip(i + 1));
            assert(tail[0] == x[i as int]);
            assert(0 <= x[i as int] < 13);
            lemma_colex_nonneg(x.skip(i + 1));
        }
        let b = binom_small(v[i], (n - i) as u32);
        acc = acc + b;
        i = i + 1;
    }
    acc
}

fn rank_counts_of(cards: &[Card]) -> (c: Vec<u8>)
    requires
        cards@.len() <= 7,
        forall|i: int| 0 <= i < cards@.len() ==> (#[trigger] cards@[i]).valid(),
    ensures
        c@.len() == 13,
        counts_as_ints(c@) == rank_counts(cards@),
{
    let mut c: Vec<u8> = Vec::new();
    let mut k: usize = 0;
    while k < 13
        invariant
            k <= 13,
            c@.len() == k,
            forall|r: int| 0 <= r < k ==> c@[r] == 0,
        decreases 13 - k,
    {
        c.push(0);
        k = k + 1;
    }
    let n = cards.len();
    let mut i: usize = 0;
    proof {
        assert forall|r: int| 0 <= r < 13 implies c@[r] == rank_count(cards@.take(0), r) by {
            assert(cards@.take(0).len() == 0);
        }
    }
    while i < n
        invariant
            n == cards@.len(),
            n <= 7,
            i <= n,
            c@.len() == 13,
            forall|j: int| 0 <= j < cards@.len() ==> (#[trigger] cards@[j]).valid(),
            forall|r: int| 0 <= r < 13 ==> #[trigger] c@[r] == rank_count(cards@.take(i as int), r),
            forall|r: int| 0 <= r < 13 ==> #[trigger] c@[r] <= i,
        decreases n - i,
    {
        let card = cards[i];
        let r = card.rank().as_u8() as usize;
        proof {
            assert(cards@.take(i + 1).drop_last() =~= cards@.take(i as int));
            assert(cards@.take(i + 1).last() == card);
        }
        let cur = c[r];
        c.set(r, cur + 1);
        i = i + 1;
    }
    proof {
        assert(cards@.take(n as int) =~= cards@);
        assert(counts_as_ints(c@) =~= rank_counts(cards@));
    }
    c
}

fn ranks_with_count_of(c: &Vec<u8>, m: u8) -> (v: Vec<u32>)
    requires
        c@.len() == 13,
    ensures
        as_ints(v@) == ranks_with_count(counts_as_ints(c@), m as int, 13),
        v@.len() <= 13,
{
    let ghost ci = counts_as_ints(c@);
    let mut v: Vec<u32> = Vec::new();
    let mut n: usize = 0;
    proof {
        assert(as_ints(v@) =~= ranks_with_count(ci, m as int, 0));
    }
    while n < 13
        invariant
            n <= 13,
            c@.len() == 13,
            ci == counts_as_ints(c@),
            as_ints(v@) == ranks_with_count(ci, m as int, n as int),
            v@.len() <= n,
        decreases 13 - n,
    {
        if c[n] == m {
            proof {
                assert(as_ints(v@.insert(0, n as u32)) =~= seq![n as int] + as_ints(v@));
            }
            v.insert(0, n as u32);
        }
        n = n + 1;
    }
    v
}

fn count_above_of(v: &Vec<u32>, k: u32) -> (r: u32)
    requires
        v@.len() <= 13,
    ensures
        r == count_above(as_ints(v@), k as int),
        r <= v@.len(),
{
    let ghost x = as_ints(v@);
    let n = v.len();
    let mut cnt: u32 = 0;
    let mut i: usize = 0;
    while i < n
        invariant
            n == v@.len(),
            n <= 13,
            x == as_ints(v@),
            i <= n,
            cnt == count_above(x.take(i as int), k as int),
            cnt <= i,
        decreases n - i,
    {
        proof {
            assert(x.take(i + 1).drop_last() =~= x.take(i as int));
            assert(x.take(i + 1).last() == v@[i as int] as int);
        }
        if v[i] > k {
            cnt = cnt + 1;
        }
        i = i + 1;
    }
    proof {
        assert(x.take(n as int) =~= x);
    }
    cnt
}

fn skip_rank_of(v: &Vec<u32>, x: u32) -> (r: Vec<u32>)
    requires
        v@.len() <= 13,
    ensures
        as_ints(r@) == skip_rank(as_ints(v@), x as int),
{
    let n = v.len();
    let mut r: Vec<u32> = Vec::new();
    let mut i: usize = 0;
    while i < n
        invariant
            n == v@.len(),
            i <= n,
            r@.len() == i,
            forall|j: int| 0 <= j < i ==> (#[trigger] r@[j]) as int == (if v@[j] > x { v@[j] - 1 } else { v@[j] as int }),
        decreases n - i,
    {
        let e = v[i];
        if e > x {
            r.push(e - 1);
        } else {
            r.push(e);
        }
        i = i + 1;
    }
    proof {
        assert(as_ints(r@) =~= skip_rank(as_ints(v@), x as int));
    }
    r
}

fn straight_top_of(s: &Vec<u32>) -> (t: i64)
    requires
        strictly_desc_below(as_ints(s@), 13),
    ensures
        t == straight_top(as_ints(s@)),
{
    let ghost x = as_ints(s@);
    if s.len() == 5 {
        proof {
            assert(x[0] == s@[0] && x[4] == s@[4]);
            assert(x[0] > x[4]);
        }
        if s[0] - s[4] == 4 {
            return s[0] as i64;
        }
        if s[0] == 12 && s[1] == 3 && s[2] == 2 && s[3] == 1 && s[4] == 0 {
            proof {
                assert(x =~= wheel_ranks());
            }
            return 3;
        }
        proof {
            if x =~= wheel_ranks() {
                assert(x[1] == 3 && x[2] == 2 && x[3] == 1);
            }
        }
    } else {
        proof {
            assert(!(x =~= wheel_ranks()));
        }
    }
    -1
}

fn distinct_ranks_index_of(s: &Vec<u32>) -> (r: i64)
    requires
        s@.len() == 5,
        strictly_desc_below(as_ints(s@), 13),
    ensures
        r == distinct_ranks_index(as_ints(s@)),
{
    let v = colex_of(s) as i64;
    proof {
        lemma_binom_values();
    }
    let mut above: i64 = 0;
    if 792 > v { above = above + 1; }
    if 0 > v { above = above + 1; }
    if 5 > v { above = above + 1; }
    if 20 > v { above = above + 1; }
    if 55 > v { above = above + 1; }
    if 125 > v { above = above + 1; }
    if 251 > v { above = above + 1; }
    if 461 > v { above = above + 1; }
    if 791 > v { above = above + 1; }
    if 1286 > v { above = above + 1; }
    (1286 - v) - above
}

/// Scores five distinct valid cards.
fn score_five(cards: &[Card]) -> (r: u16)
    requires
        cards@.len() == 5,
        distinct_valid(cards@),
    ensures
        r as int == hand_score(cards@),
        1 <= r <= 7462,
{
    let counts = rank_counts_of(cards);
    let s0 = cards[0].suit().as_u8();
    let flush = cards[1].suit().as_u8() == s0 && cards[2].suit().as_u8() == s0
        && cards[3].suit().as_u8() == s0 && cards[4].suit().as_u8() == s0;
    let ghost c = counts_as_ints(counts@);
    proof {
        assert(flush == all_same_suit(cards@)) by {
            if flush {
                assert forall|i: int| 0 <= i < cards@.len() implies (#[trigger] cards@[i]).suit_idx()
                    == cards@[0].suit_idx() by {}
            }
        }
        lemma_hand_shape(cards@);
        lemma_score_category(c, flush);
        lemma_shape_lengths(c);
        lemma_ranks_with_count(c, 4, 13);
        lemma_ranks_with_count(c, 3, 13);
        lemma_ranks_with_count(c, 2, 13);
        lemma_ranks_with_count(c, 1, 13);
    }
    let quads = ranks_with_count_of(&counts, 4);
    let trips = ranks_with_count_of(&counts, 3);
    let pairs = ranks_with_count_of(&counts, 2);
    let singles = ranks_with_count_of(&counts, 1);
    proof {
        assert(as_ints(quads@).len() == quads@.len());
        assert(as_ints(trips@).len() == trips@.len());
        assert(as_ints(pairs@).len() == pairs@.len());
        assert(as_ints(singles@).len() == singles@.len());
    }
    let top = straight_top_of(&singles);
    let score: i64 = if flush && top >= 0 {
        1 + (12 - top)
    } else if quads.len() == 1 {
        proof {
            assert(as_ints(quads@)[0] == quads@[0]);
            assert(as_ints(singles@)[0] == singles@[0]);
        }
        let above = count_above_of(&quads, singles[0]) as i64;
        11 + (12 - quads[0] as i64) * 12 + ((12 - singles[0] as i64) - above)
    } else if trips.len() == 1 && pairs.len() == 1 {
        proof {
            assert(as_ints(trips@)[0] == trips@[0]);
            assert(as_ints(pairs@)[0] == pairs@[0]);
        }
        let above = count_above_of(&trips, pairs[0]) as i64;
        167 + (12 - trips[0] as i64) * 12 + ((12 - pairs[0] as i64) - above)
    } else if flush {
        323 + distinct_ranks_index_of(&singles)
    } else if top >= 0 {
        1600 + (12 - top)
    } else if trips.len() == 1 {
        proof {
            assert(as_ints(trips@)[0] == trips@[0]);
            assert(!as_ints(singles@).contains(as_ints(trips@)[0])) by {
                if as_ints(singles@).contains(as_ints(trips@)[0]) {
                    assert(c[as_ints(trips@)[0]] == 3);
                }
            }
            lemma_skip_rank(as_ints(singles@), trips@[0] as int);
            lemma_binom_values();
        }
        let kickers = skip_rank_of(&singles, trips[0]);
        let cx = colex_of(&kickers) as i64;
        1610 + (12 - trips[0] as i64) * 66 + (65 - cx)
    } else if pairs.len() == 2 {
        proof {
            assert(as_ints(singles@)[0] == singles@[0]);
            lemma_binom_values();
        }
        let cx = colex_of(&pairs) as i64;
        let above = count_above_of(&pairs, singles[0]) as i64;
        2468 + (77 - cx) * 11 + ((12 - singles[0] as i64) - above)
    } else if pairs.len() == 1 {
        proof {
            assert(as_ints(pairs@)[0] == pairs@[0]);
            assert(!as_ints(singles@).contains(as_ints(pairs@)[0])) by {
                if as_ints(singles@).contains(as_ints(pairs@)[0]) {
                    assert(c[as_ints(pairs@)[0]] == 2);
                }
            }
            lemma_skip_rank(as_ints(singles@), pairs@[0] as int);
            lemma_binom_values();
        }
        let kickers = skip_rank_of(&singles, pairs[0]);
        let cx = colex_of(&kickers) as i64;
        3326 + (12 - pairs[0] as i64) * 220 + (219 - cx)
    } else {
        6186 + distinct_ranks_index_of(&singles)
    };
    proof {
        assert(score == score_from_counts(c, flush));
    }
    score as u16
}

/// The 32-bit mix of a prime product that Paul Senzee's perfect hash starts from.
pub open spec fn hash_mix(u: u32) -> u32 {
    let u1 = u.wrapping_add(0xe91aaa35u32);
    let u2 = u1 ^ (u1 >> 16u32);
    let u3 = u2.wrapping_add(u2 << 8u32);
    u3 ^ (u3 >> 4u32)
}

/// The entry of the adjustment table that the hash of `u` reads (bits 8..=16 of the mix).
pub open spec fn hash_bucket(u: u32) -> u32 {
    (hash_mix(u) >> 8u32) & 0x1ffu32
}

/// The high bits of the hash of `u`, before adjustment.
pub open spec fn hash_high(u: u32) -> u32 {
    hash_mix(u).wrapping_add(hash_mix(u) << 2u32) >> 19u32
}

/// Paul Senzee's perfect hash, mapping a prime product to a table index below 8192; it
/// reads entry `hash_bucket(u)` (always below 512) of the 512-entry adjustment table.
pub fn find_fast(u: u32, hash_adjust: &[u16; 512]) -> (r: usize)
    ensures
        hash_bucket(u) < 512,
        r == (hash_high(u) ^ (hash_adjust@[hash_bucket(u) as int] as u32)) & 0x1FFFu32,
        r <= 0x1FFF,
{
    let mut v = u.wrapping_add(0xe91aaa35);
    v ^= v >> 16;
    v = v.wrapping_add(v << 8);
    v ^= v >> 4;
    let b = ((v >> 8) & 0x1ff) as usize;
    proof {
        let x = v;
        assert((x >> 8u32) & 0x1ffu32 < 512) by (bit_vector);
    }
    let a = v.wrapping_add(v << 2) >> 19;
    let r = a ^ (hash_adjust[b] as u32);
    proof {
        let y = r;
        assert(y & 0x1FFFu32 <= 0x1FFF) by (bit_vector);
    }
    (r & 0x1FFF) as usize
}

/// Evaluates a 5-card poker hand returning an equivalence score in [1, 7462].
///
/// Lower scores represent stronger hands: a Royal Flush returns 1 and 7-5-4-3-2 unsuited
/// returns 7462. The five cards must be distinct.
pub fn eval_5hand(c1: Card, c2: Card, c3: Card, c4: Card, c5: Card) -> (r: u16)
    requires
        distinct_valid(seq![c1, c2, c3, c4, c5]),
    ensures
        r as int == hand_score(seq![c1, c2, c3, c4, c5]),
        1 <= r <= 7462,
        category_of_score(r as int) == Some(
            category_from_counts(
                rank_counts(seq![c1, c2, c3, c4, c5]),
                all_same_suit(seq![c1, c2, c3, c4, c5]),
            ),
        ),
{
    let cards = [c1, c2, c3, c4, c5];
    proof {
        assert(cards@ =~= seq![c1, c2, c3, c4, c5]);
        lemma_hand_shape(cards@);
        lemma_score_category(rank_counts(cards@), all_same_suit(cards@));
    }
    score_five(&cards)
}

/// Evaluates a fixed array of 5 distinct cards.
pub fn eval_5hand_array(cards: [Card; 5]) -> (r: u16)
    requires
        distinct_valid(cards@),
    ensures
        r as int == hand_score(cards@),
        1 <= r <= 7462,
{
    proof {
        assert(cards@ =~= seq![cards[0], cards[1], cards[2], cards[3], cards[4]]);
    }
    eval_5hand(cards[0], cards[1], cards[2], cards[3], cards[4])
}

/// Static unrolled indices for all 21 combinations of choosing 5 cards out of 7.
pub const COMBOS_7_CHOOSE_5: [[usize; 5]; 21] = [
    [0, 1, 2, 3, 4],
    [0, 1, 2, 3, 5],
    [0, 1, 2, 3, 6],
    [0, 1, 2, 4, 5],
    [0, 1, 2, 4, 6],
    [0, 1, 2, 5, 6],
    [0, 1, 3, 4, 5],
    [0, 1, 3, 4, 6],
    [0, 1, 3, 5, 6],
    [0, 1, 4, 5, 6],
    [0, 2, 3, 4, 5],
    [0, 2, 3, 4, 6],
    [0, 2, 3, 5, 6],
    [0, 2, 4, 5, 6],
    [0, 3, 4, 5, 6],
    [1, 2, 3, 4, 5],
    [1, 2, 3, 4, 6],
    [1, 2, 3, 5, 6],
    [1, 2, 4, 5, 6],
    [1, 3, 4, 5, 6],
    [2, 3, 4, 5, 6],
];

proof fn lemma_combos_table()
    ensures
        forall|k: int, j: int| 0 <= k < 21 && 0 <= j < 5 ==> #[trigger] COMBOS_7_CHOOSE_5[k][j] < 7,
        forall|k: int, j: int, l: int| 0 <= k < 21 && 0 <= j < l < 5 ==> #[trigger] COMBOS_7_CHOOSE_5[k][j]
            < #[trigger] COMBOS_7_CHOOSE_5[k][l],
{
    assert(COMBOS_7_CHOOSE_5[0][1] == 1);
}

/// The five cards of a 7-card hand picked by combination `k` of `COMBOS_7_CHOOSE_5`.
pub open spec fn combo_hand(cards: Seq<Card>, k: int) -> Seq<Card> {
    seq![
        cards[COMBOS_7_CHOOSE_5[k][0] as int],
        cards[COMBOS_7_CHOOSE_5[k][1] as int],
        cards[COMBOS_7_CHOOSE_5[k][2] as int],
        cards[COMBOS_7_CHOOSE_5[k][3] as int],
        cards[COMBOS_7_CHOOSE_5[k][4] as int],
    ]
}

/// The lowest (strongest) 5-card score among the first `n` combinations of a 7-card hand,
/// or 9999 when `n` is 0.
pub open spec fn best_combo_score(cards: Seq<Card>, n: int) -> int
    decreases n,
{
    if n <= 0 {
        9999
    } else {
        let prev = best_combo_score(cards, n - 1);
        let s = hand_score(combo_hand(cards, n - 1));
        if s < prev {
            s
        } else {
            prev
        }
    }
}

/// The Cactus-Kev score of a 7-card hand: the strongest score over its 21 five-card subsets.
pub open spec fn seven_card_score(cards: Seq<Card>) -> int {
    best_combo_score(cards, 21)
}

proof fn lemma_combo_distinct(cards: Seq<Card>, k: int)
    requires
        cards.len() == 7,
        distinct_valid(cards),
        0 <= k < 21,
    ensures
        distinct_valid(combo_hand(cards, k)),
{
    lemma_combos_table();
    let h = combo_hand(cards, k);
    assert forall|i: int, j: int| 0 <= i < j < h.len() implies (#[trigger] h[i]).index_of()
        != (#[trigger] h[j]).index_of() by {
        let a = COMBOS_7_CHOOSE_5[k][i] as int;
        let b = COMBOS_7_CHOOSE_5[k][j] as int;
        assert(a < b);
        assert(h[i] == cards[a] && h[j] == cards[b]);
    }
}

proof fn lemma_best_bounds(cards: Seq<Card>, n: int)
    requires
        cards.len() == 7,
        distinct_valid(cards),
        0 <= n <= 21,
    ensures
        n >= 1 ==> 1 <= best_combo_score(cards, n) <= 7462,
        forall|m: int| n <= m <= 21 ==> best_combo_score(cards, m) <= best_combo_score(cards, n),
    decreases 21 - n,
{
    if n >= 1 {
        lemma_best_bounds_up(cards, n);
    }
    if n < 21 {
        lemma_best_bounds(cards, n + 1);
    }
}

proof fn lemma_best_bounds_up(cards: Seq<Card>, n: int)
    requires
        cards.len() == 7,
        distinct_valid(cards),
        1 <= n <= 21,
    ensures
        1 <= best_combo_score(cards, n) <= 7462,
    decreases n,
{
    let h = combo_hand(cards, n - 1);
    lemma_combo_distinct(cards, n - 1);
    lemma_hand_shape(h);
    lemma_score_category(rank_counts(h), all_same_suit(h));
    assert(1 <= hand_score(h) <= 7462);
    if n > 1 {
        lemma_best_bounds_up(cards, n - 1);
    }
    assert(best_combo_score(cards, n) == if hand_score(h) < best_combo_score(cards, n - 1) {
        hand_score(h)
    } else {
        best_combo_score(cards, n - 1)
    });
}

/// Evaluates a 7-card hand by checking all 21 combinations of 5 cards out of 7.
pub fn eval_7hand_combos(cards: &[Card; 7]) -> (r: u16)
    requires
        distinct_valid(cards@),
    ensures
        r as int == seven_card_score(cards@),
        1 <= r <= 7462,
{
    proof {
        lemma_best_bounds(cards@, 0);
        lemma_best_bounds(cards@, 21);
    }
    let mut best: u16 = 9999;
    let mut k: usize = 0;
    while k < 21
        invariant
            k <= 21,
            cards@.len() == 7,
            distinct_valid(cards@),
            best as int == best_combo_score(cards@, k as int),
        decreases 21 - k,
    {
        let combo = COMBOS_7_CHOOSE_5[k];
        proof {
            lemma_combos_table();
            lemma_combo_distinct(cards@, k as int);
            assert(combo_hand(cards@, k as int) =~= seq![
                cards@[combo[0] as int],
                cards@[combo[1] as int],
                cards@[combo[2] as int],
                cards@[combo[3] as int],
                cards@[combo[4] as int],
            ]);
        }
        let score = eval_5hand(
            cards[combo[0]],
            cards[combo[1]],
            cards[combo[2]],
            cards[combo[3]],
            cards[combo[4]],
        );
        if score < best {
            best = score;
            if best == 1 {
                proof {
                    lemma_best_bounds(cards@, k + 1);
                    lemma_best_bounds(cards@, 21);
                }
                return 1;
            }
        }
        k = k + 1;
    }
    best
}

/// Evaluates a 7-card hand returning the strongest 5-card score in [1, 7462], equal to the
/// minimal Cactus-Kev score over its 21 five-card subsets.
pub fn eval_7hand(cards: &[Card; 7]) -> (r: u16)
    requires
        distinct_valid(cards@),
    ensures
        r as int == seven_card_score(cards@),
        1 <= r <= 7462,
{
    eval_7hand_combos(cards)
}

/// Evaluates a Texas Hold'em hand given 2 hole cards and 5 board cards.
pub fn eval_holdem(hole: [Card; 2], board: [Card; 5]) -> (r: u16)
    requires
        distinct_valid(hole@ + board@),
    ensures
        r as int == seven_card_score(hole@ + board@),
        1 <= r <= 7462,
{
    let cards = [hole[0], hole[1], board[0], board[1], board[2], board[3], board[4]];
    proof {
        assert(cards@ =~= hole@ + board@);
    }
    eval_7hand(&cards)
}


proof fn lemma_rank_count_concat(a: Seq<Card>, b: Seq<Card>, r: int)
    ensures
        rank_count(a + b, r) == rank_count(a, r) + rank_count(b, r),
    decreases b.len(),
{
    if b.len() > 0 {
        lemma_rank_count_concat(a, b.drop_last(), r);
        assert((a + b).drop_last() =~= a + b.drop_last());
        assert((a + b).last() == b.last());
    } else {
        assert(a + b =~= a);
    }
}

proof fn lemma_rank_count_multiset(s1: Seq<Card>, s2: Seq<Card>, r: int)
    requires
        s1.to_multiset() == s2.to_multiset(),
    ensures
        rank_count(s1, r) == rank_count(s2, r),
    decreases s1.len(),
{
    broadcast use vstd::multiset::group_multiset_axioms;

    vstd::seq_lib::to_multiset_len(s1);
    vstd::seq_lib::to_multiset_len(s2);
    if s1.len() == 0 {
        assert(s2.len() == 0);
        assert(s1 =~= s2);
    } else {
        let x = s1.last();
        let s1p = s1.drop_last();
        assert(s1 =~= s1p.push(x));
        vstd::seq_lib::to_multiset_build(s1p, x);
        assert(s2.to_multiset().count(x) > 0);
        vstd::seq_lib::to_multiset_contains(s2, x);
        let k = choose|k: int| 0 <= k < s2.len() && s2[k] == x;
        let s2p = s2.remove(k);
        vstd::seq_lib::to_multiset_remove(s2, k);
        assert(s2p.to_multiset() =~= s1p.to_multiset());
        lemma_rank_count_multiset(s1p, s2p, r);
        let a = s2.take(k);
        let z = s2.skip(k + 1);
        assert(s2 =~= a + seq![x] + z);
        assert(s2p =~= a + z);
        lemma_rank_count_concat(a + seq![x], z, r);
        lemma_rank_count_concat(a, seq![x], r);
        lemma_rank_count_concat(a, z, r);
        assert(seq![x].drop_last() =~= Seq::<Card>::empty());
        assert(rank_count(Seq::<Card>::empty(), r) == 0);
        assert(rank_count(seq![x].drop_last(), r) == 0);
        assert(seq![x].last() == x);
        assert(rank_count(seq![x], r) == (if x.rank_idx() == r { 1int } else { 0int }));
        assert(rank_count(s2, r) == rank_count(s2p, r) + (if x.rank_idx() == r { 1int } else { 0int }));
        assert(rank_count(s1, r) == rank_count(s1p, r) + (if x.rank_idx() == r { 1int } else { 0int }));
    }
}

proof fn lemma_same_elements(s1: Seq<Card>, s2: Seq<Card>, c: Card)
    requires
        s1.to_multiset() == s2.to_multiset(),
    ensures
        s1.contains(c) <==> s2.contains(c),
{
    vstd::seq_lib::to_multiset_contains(s1, c);
    vstd::seq_lib::to_multiset_contains(s2, c);
}

proof fn lemma_all_same_suit_multiset(s1: Seq<Card>, s2: Seq<Card>)
    requires
        s1.to_multiset() == s2.to_multiset(),
    ensures
        all_same_suit(s1) ==> all_same_suit(s2),
{
    vstd::seq_lib::to_multiset_len(s1);
    vstd::seq_lib::to_multiset_len(s2);
    if all_same_suit(s1) && s2.len() > 0 {
        lemma_same_elements(s1, s2, s2[0]);
        assert(s2.contains(s2[0]));
        let k0 = choose|k: int| 0 <= k < s1.len() && s1[k] == s2[0];
        assert(s1[k0].suit_idx() == s1[0].suit_idx());
        assert forall|i: int| 0 <= i < s2.len() implies (#[trigger] s2[i]).suit_idx() == s2[0].suit_idx() by {
            lemma_same_elements(s1, s2, s2[i]);
            assert(s2.contains(s2[i]));
            let k = choose|k: int| 0 <= k < s1.len() && s1[k] == s2[i];
            assert(s1[k].suit_idx() == s1[0].suit_idx());
        }
    }
}

/// The score of a hand depends only on which cards it holds, not on their order: two
/// sequences of the same cards (as multisets) score the same.
pub proof fn lemma_hand_score_order_free(s1: Seq<Card>, s2: Seq<Card>)
    requires
        s1.to_multiset() == s2.to_multiset(),
    ensures
        hand_score(s1) == hand_score(s2),
{
    assert forall|r: int| 0 <= r < 13 implies rank_count(s1, r) == rank_count(s2, r) by {
        lemma_rank_count_multiset(s1, s2, r);
    }
    assert(rank_counts(s1) =~= rank_counts(s2));
    lemma_all_same_suit_multiset(s1, s2);
    lemma_all_same_suit_multiset(s2, s1);
}


proof fn lemma_best_combo_score(cards: Seq<Card>, n: int)
    requires
        0 <= n <= 21,
    ensures
        best_combo_score(cards, n) <= 9999,
        forall|k: int| 0 <= k < n ==> best_combo_score(cards, n) <= hand_score(#[trigger] combo_hand(cards, k)),
        best_combo_score(cards, n) == 9999 || exists|k: int| 0 <= k < n && best_combo_score(cards, n) == hand_score(#[trigger] combo_hand(cards, k)),
    decreases n,
{
    if n > 0 {
        lemma_best_combo_score(cards, n - 1);
        if best_combo_score(cards, n) != 9999 && best_combo_score(cards, n) != hand_score(combo_hand(cards, n - 1)) {
            let k = choose|k: int| 0 <= k < n - 1 && best_combo_score(cards, n - 1) == hand_score(#[trigger] combo_hand(cards, k));
            assert(best_combo_score(cards, n) == hand_score(combo_hand(cards, k)));
        }
    }
}

/// The combination that swapping the two hole cards turns combination `k` into.
spec fn hole_swap_combo(k: int) -> int {
    if 10 <= k < 15 {
        k + 5
    } else if 15 <= k < 20 {
        k - 5
    } else {
        k
    }
}

proof fn lemma_hole_swap_combo(cards: Seq<Card>, k: int)
    requires
        cards.len() == 7,
        0 <= k < 21,
    ensures
        hand_score(combo_hand(cards.update(0, cards[1]).update(1, cards[0]), k)) == hand_score(
            combo_hand(cards, hole_swap_combo(k)),
        ),
        0 <= hole_swap_combo(k) < 21,
        hole_swap_combo(hole_swap_combo(k)) == k,
{
    let t = cards.update(0, cards[1]).update(1, cards[0]);
    let h = combo_hand(t, k);
    let g = combo_hand(cards, hole_swap_combo(k));
    if k < 10 {
        assert(COMBOS_7_CHOOSE_5[k][0] == 0 && COMBOS_7_CHOOSE_5[k][1] == 1);
        let swapped = g.update(0, g[1]).update(1, g[0]);
        assert(h =~= swapped);
        lemma_swap_multiset(g);
        lemma_hand_score_order_free(h, g);
    } else {
        assert(h =~= g);
    }
}

proof fn lemma_swap_multiset(g: Seq<Card>)
    requires
        g.len() >= 2,
    ensures
        g.update(0, g[1]).update(1, g[0]).to_multiset() == g.to_multiset(),
{
    broadcast use vstd::multiset::group_multiset_axioms;

    let rest = g.skip(2);
    let a = seq![g[0], g[1]];
    let b = seq![g[1], g[0]];
    assert(g =~= a + rest);
    assert(g.update(0, g[1]).update(1, g[0]) =~= b + rest);
    vstd::seq_lib::lemma_multiset_commutative(a, rest);
    vstd::seq_lib::lemma_multiset_commutative(b, rest);
    assert(a =~= seq![g[0]] + seq![g[1]]);
    assert(b =~= seq![g[1]] + seq![g[0]]);
    vstd::seq_lib::lemma_multiset_commutative(seq![g[0]], seq![g[1]]);
    vstd::seq_lib::lemma_multiset_commutative(seq![g[1]], seq![g[0]]);
    assert(a.to_multiset() =~= b.to_multiset());
}

/// The score of seven cards does not depend on the order of the two hole cards: swapping
/// the first two cards leaves it unchanged.
pub proof fn lemma_seven_card_score_hole_order(cards: Seq<Card>)
    requires
        cards.len() == 7,
    ensures
        seven_card_score(cards.update(0, cards[1]).update(1, cards[0])) == seven_card_score(cards),
{
    let t = cards.update(0, cards[1]).update(1, cards[0]);
    lemma_best_combo_score(cards, 21);
    lemma_best_combo_score(t, 21);
    assert forall|k: int| 0 <= k < 21 implies seven_card_score(t) <= hand_score(#[trigger] combo_hand(cards, k)) by {
        lemma_hole_swap_combo(cards, hole_swap_combo(k));
        lemma_hole_swap_combo(cards, k);
        assert(seven_card_score(t) <= hand_score(combo_hand(t, hole_swap_combo(k))));
    }
    assert forall|k: int| 0 <= k < 21 implies seven_card_score(cards) <= hand_score(#[trigger] combo_hand(t, k)) by {
        lemma_hole_swap_combo(cards, k);
    }
    if seven_card_score(cards) != 9999 {
        let k = choose|k: int| 0 <= k < 21 && seven_card_score(cards) == hand_score(#[trigger] combo_hand(cards, k));
        assert(seven_card_score(t) <= hand_score(combo_hand(cards, k)));
    }
    if seven_card_score(t) != 9999 {
        let k = choose|k: int| 0 <= k < 21 && seven_card_score(t) == hand_score(#[trigger] combo_hand(t, k));
        assert(seven_card_score(cards) <= hand_score(combo_hand(t, k)));
    }
}

/// The row of `COMBOS_7_CHOOSE_5` that holds the increasing positions `a < b < c < d < e`.
spec fn combo_row(a: int, b: int, c: int, d: int, e: int) -> int {
    if a == 0 && b == 1 && c == 2 && d == 3 && e == 4 {
        0
    } else if a == 0 && b == 1 && c == 2 && d == 3 && e == 5 {
        1
    } else if a == 0 && b == 1 && c == 2 && d == 3 && e == 6 {
        2
    } else if a == 0 && b == 1 && c == 2 && d == 4 && e == 5 {
        3
    } else if a == 0 && b == 1 && c == 2 && d == 4 && e == 6 {
        4
    } else if a == 0 && b == 1 && c == 2 && d == 5 && e == 6 {
        5
    } else if a == 0 && b == 1 && c == 3 && d == 4 && e == 5 {
        6
    } else if a == 0 && b == 1 && c == 3 && d == 4 && e == 6 {
        7
    } else if a == 0 && b == 1 && c == 3 && d == 5 && e == 6 {
        8
    } else if a == 0 && b == 1 && c == 4 && d == 5 && e == 6 {
        9
    } else if a == 0 && b == 2 && c == 3 && d == 4 && e == 5 {
        10
    } else if a == 0 && b == 2 && c == 3 && d == 4 && e == 6 {
        11
    } else if a == 0 && b == 2 && c == 3 && d == 5 && e == 6 {
        12
    } else if a == 0 && b == 2 && c == 4 && d == 5 && e == 6 {
        13
    } else if a == 0 && b == 3 && c == 4 && d == 5 && e == 6 {
        14
    } else if a == 1 && b == 2 && c == 3 && d == 4 && e == 5 {
        15
    } else if a == 1 && b == 2 && c == 3 && d == 4 && e == 6 {
        16
    } else if a == 1 && b == 2 && c == 3 && d == 5 && e == 6 {
        17
    } else if a == 1 && b == 2 && c == 4 && d == 5 && e == 6 {
        18
    } else if a == 1 && b == 3 && c == 4 && d == 5 && e == 6 {
        19
    } else {
        20
    }
}

proof fn lemma_combo_row(a: int, b: int, c: int, d: int, e: int)
    requires
        0 <= a < b < c < d < e < 7,
    ensures
        0 <= combo_row(a, b, c, d, e) < 21,
        COMBOS_7_CHOOSE_5[combo_row(a, b, c, d, e)][0] == a,
        COMBOS_7_CHOOSE_5[combo_row(a, b, c, d, e)][1] == b,
        COMBOS_7_CHOOSE_5[combo_row(a, b, c, d, e)][2] == c,
        COMBOS_7_CHOOSE_5[combo_row(a, b, c, d, e)][3] == d,
        COMBOS_7_CHOOSE_5[combo_row(a, b, c, d, e)][4] == e,
{
}

/// The seven-card score is the strongest score among the 21 five-card hands of the seven
/// cards: it is at most the score of each of them, and it is the score of one of them.
pub proof fn lemma_seven_card_score_is_best(cards: Seq<Card>)
    requires
        cards.len() == 7,
        distinct_valid(cards),
    ensures
        forall|k: int| 0 <= k < 21 ==> seven_card_score(cards) <= hand_score(#[trigger] combo_hand(cards, k)),
        exists|k: int| 0 <= k < 21 && seven_card_score(cards) == hand_score(#[trigger] combo_hand(cards, k)),
        1 <= seven_card_score(cards) <= 7462,
{
    lemma_best_combo_score(cards, 21);
    lemma_best_bounds(cards, 21);
}

/// Any five of the seven cards, taken at increasing positions, score no better than the
/// seven-card score: `seven_card_score` is at most `hand_score` of every 5-card subset.
pub proof fn lemma_seven_card_score_at_most_subset(cards: Seq<Card>, a: int, b: int, c: int, d: int, e: int)
    requires
        cards.len() == 7,
        0 <= a < b < c < d < e < 7,
    ensures
        seven_card_score(cards) <= hand_score(seq![cards[a], cards[b], cards[c], cards[d], cards[e]]),
{
    lemma_combo_row(a, b, c, d, e);
    let k = combo_row(a, b, c, d, e);
    lemma_best_combo_score(cards, 21);
    assert(combo_hand(cards, k) =~= seq![cards[a], cards[b], cards[c], cards[d], cards[e]]);
}

proof fn lemma_rank_count_pointwise(s1: Seq<Card>, s2: Seq<Card>, r: int)
    requires
        s1.len() == s2.len(),
        forall|i: int| 0 <= i < s1.len() ==> (#[trigger] s1[i]).rank_idx() == s2[i].rank_idx(),
    ensures
        rank_count(s1, r) == rank_count(s2, r),
    decreases s1.len(),
{
    if s1.len() > 0 {
        let n = s1.len() - 1;
        assert(s1[n].rank_idx() == s2[n].rank_idx());
        lemma_rank_count_pointwise(s1.drop_last(), s2.drop_last(), r);
    }
}

/// Renaming the suits one-to-one leaves the score of a hand unchanged: when the second
/// hand has the ranks of the first, position by position, and its suits are the first
/// hand's suits under an injective renaming `rename`, both hands score the same.
pub proof fn lemma_hand_score_suit_renaming(s1: Seq<Card>, s2: Seq<Card>, rename: spec_fn(u32) -> u32)
    requires
        s1.len() == s2.len(),
        forall|x: u32, y: u32| x < 4 && y < 4 && #[trigger] rename(x) == #[trigger] rename(y) ==> x == y,
        forall|i: int| 0 <= i < s1.len() ==> (#[trigger] s1[i]).rank_idx() == s2[i].rank_idx(),
        forall|i: int| 0 <= i < s1.len() ==> (#[trigger] s2[i]).suit_idx() == rename(s1[i].suit_idx()),
    ensures
        hand_score(s1) == hand_score(s2),
{
    assert forall|r: int| 0 <= r < 13 implies rank_count(s1, r) == rank_count(s2, r) by {
        lemma_rank_count_pointwise(s1, s2, r);
    }
    assert(rank_counts(s1) =~= rank_counts(s2));
    if s1.len() > 0 {
        assert(s2[0].suit_idx() == rename(s1[0].suit_idx()));
        assert(all_same_suit(s1) == all_same_suit(s2)) by {
            if all_same_suit(s1) {
                assert forall|i: int| 0 <= i < s2.len() implies (#[trigger] s2[i]).suit_idx() == s2[0].suit_idx() by {
                    assert(s1[i].suit_idx() == s1[0].suit_idx());
                    assert(s2[i].suit_idx() == rename(s1[i].suit_idx()));
                }
            }
            if all_same_suit(s2) {
                assert forall|i: int| 0 <= i < s1.len() implies (#[trigger] s1[i]).suit_idx() == s1[0].suit_idx() by {
                    assert(s2[i].suit_idx() == s2[0].suit_idx());
                    assert(s2[i].suit_idx() == rename(s1[i].suit_idx()));
                    assert(s1[i].suit_idx() < 4 && s1[0].suit_idx() < 4);
                }
            }
        }
    }
}


proof fn lemma_swap_hand_score(h: Seq<Card>, i: int, j: int)
    requires
        0 <= i < j < h.len(),
    ensures
        hand_score(h.update(i, h[j]).update(j, h[i])) == hand_score(h),
{
    broadcast use vstd::multiset::group_multiset_axioms;

    let h1 = h.update(i, h[j]);
    let h2 = h1.update(j, h[i]);
    vstd::seq_lib::to_multiset_update(h, i, h[j]);
    vstd::seq_lib::to_multiset_update(h1, j, h[i]);
    assert(h1[j] == h[j]);
    assert(h.contains(h[i]));
    vstd::seq_lib::to_multiset_contains(h, h[i]);
    let m = h.to_multiset();
    let m1 = m.insert(h[j]).remove(h[i]);
    assert(m.insert(h[j]).count(h[i]) > 0);
    assert forall|x: Card| #[trigger] m1.count(x) == m.count(x) + (if x == h[j] { 1int } else { 0int }) - (
    if x == h[i] { 1int } else { 0int }) by {}
    assert(m1.insert(h[i]).count(h[j]) > 0);
    assert(h2.to_multiset() =~= h.to_multiset());
    lemma_hand_score_order_free(h2, h);
}

/// The five cards of `cards` at the positions `w[0]`, ..., `w[4]`, in that order.
spec fn pick_five(cards: Seq<Card>, w: Seq<int>) -> Seq<Card> {
    seq![cards[w[0]], cards[w[1]], cards[w[2]], cards[w[3]], cards[w[4]]]
}

spec fn positions_ok(w: Seq<int>) -> bool {
    &&& w.len() == 5
    &&& forall|i: int| 0 <= i < 5 ==> 0 <= #[trigger] w[i] < 7
    &&& forall|i: int, j: int| 0 <= i < j < 5 ==> #[trigger] w[i] != #[trigger] w[j]
}

/// One compare-exchange step on positions `i < j` of `w`: the smaller position moves to `i`.
proof fn lemma_sort_step(cards: Seq<Card>, w: Seq<int>, i: int, j: int) -> (w2: Seq<int>)
    requires
        cards.len() == 7,
        positions_ok(w),
        0 <= i < j < 5,
    ensures
        positions_ok(w2),
        w2[i] == (if w[i] <= w[j] { w[i] } else { w[j] }),
        w2[j] == (if w[i] <= w[j] { w[j] } else { w[i] }),
        forall|m: int| 0 <= m < 5 && m != i && m != j ==> #[trigger] w2[m] == w[m],
        hand_score(pick_five(cards, w2)) == hand_score(pick_five(cards, w)),
{
    if w[i] <= w[j] {
        w
    } else {
        let w2 = w.update(i, w[j]).update(j, w[i]);
        let h = pick_five(cards, w);
        lemma_swap_hand_score(h, i, j);
        assert(pick_five(cards, w2) =~= h.update(i, h[j]).update(j, h[i]));
        assert forall|a: int, b: int| 0 <= a < b < 5 implies #[trigger] w2[a] != #[trigger] w2[b] by {
            assert(w2[a] == (if a == i { w[j] } else if a == j { w[i] } else { w[a] }));
            assert(w2[b] == (if b == i { w[j] } else if b == j { w[i] } else { w[b] }));
        }
        w2
    }
}

/// Any five distinct positions of the seven cards, in any order, give a hand that scores
/// no better than the seven-card score.
#[verifier::spinoff_prover]
pub proof fn lemma_seven_card_score_at_most_any_five(cards: Seq<Card>, w: Seq<int>)
    requires
        cards.len() == 7,
        w.len() == 5,
        forall|i: int| 0 <= i < 5 ==> 0 <= #[trigger] w[i] < 7,
        forall|i: int, j: int| 0 <= i < j < 5 ==> #[trigger] w[i] != #[trigger] w[j],
    ensures
        seven_card_score(cards) <= hand_score(seq![cards[w[0]], cards[w[1]], cards[w[2]], cards[w[3]], cards[w[4]]]),
{
    let w1 = lemma_sort_step(cards, w, 0, 1);
    let w2 = lemma_sort_step(cards, w1, 1, 2);
    let w3 = lemma_sort_step(cards, w2, 2, 3);
    let w4 = lemma_sort_step(cards, w3, 3, 4);
    let w5 = lemma_sort_step(cards, w4, 0, 1);
    let w6 = lemma_sort_step(cards, w5, 1, 2);
    let w7 = lemma_sort_step(cards, w6, 2, 3);
    let w8 = lemma_sort_step(cards, w7, 0, 1);
    let w9 = lemma_sort_step(cards, w8, 1, 2);
    let v = lemma_sort_step(cards, w9, 0, 1);
    assert(w4[4] >= w3[3] && w4[4] >= w2[2] && w4[4] >= w1[1] && w4[4] >= w1[0]);
    assert(w7[3] >= w6[2] && w7[3] >= w5[1] && w7[3] >= w5[0]);
    assert(w9[2] >= w8[1] && w9[2] >= w8[0]);
    assert(v[0] < v[1] && v[1] < v[2] && v[2] < v[3] && v[3] < v[4]);
    lemma_seven_card_score_at_most_subset(cards, v[0], v[1], v[2], v[3], v[4]);
}

#[verifier::spinoff_prover]
proof fn lemma_seven_card_score_reindex(cards: Seq<Card>, t: Seq<Card>, p: Seq<int>)
    requires
        cards.len() == 7,
        t.len() == 7,
        p.len() == 7,
        forall|i: int| 0 <= i < 7 ==> 0 <= #[trigger] p[i] < 7,
        forall|i: int, j: int| 0 <= i < j < 7 ==> #[trigger] p[i] != #[trigger] p[j],
        forall|i: int| 0 <= i < 7 ==> #[trigger] t[i] == cards[p[i]],
    ensures
        seven_card_score(cards) <= seven_card_score(t),
{
    lemma_combos_table();
    lemma_best_combo_score(cards, 21);
    lemma_best_combo_score(t, 21);
    if seven_card_score(t) != 9999 {
        let k = choose|k: int| 0 <= k < 21 && seven_card_score(t) == hand_score(#[trigger] combo_hand(t, k));
        let w = seq![
            p[COMBOS_7_CHOOSE_5[k][0] as int],
            p[COMBOS_7_CHOOSE_5[k][1] as int],
            p[COMBOS_7_CHOOSE_5[k][2] as int],
            p[COMBOS_7_CHOOSE_5[k][3] as int],
            p[COMBOS_7_CHOOSE_5[k][4] as int],
        ];
        assert forall|a: int, b: int| 0 <= a < b < 5 implies #[trigger] w[a] != #[trigger] w[b] by {
            assert(COMBOS_7_CHOOSE_5[k][a] < COMBOS_7_CHOOSE_5[k][b]);
        }
        lemma_seven_card_score_at_most_any_five(cards, w);
        assert(combo_hand(t, k) =~= seq![cards[w[0]], cards[w[1]], cards[w[2]], cards[w[3]], cards[w[4]]]);
    }
}

/// Some position `i` of the permutation `p` is sent to `m`.
pub open spec fn position_taken(p: Seq<int>, m: int) -> bool {
    exists|i: int| 0 <= i < 7 && p[i] == m
}

/// The seven-card score does not depend on the order of the seven cards: when `t` lists
/// the cards of `cards` in the order given by the permutation `p` of the positions
/// `0..7`, both score the same.
#[verifier::spinoff_prover]
pub proof fn lemma_seven_card_score_permutation(cards: Seq<Card>, t: Seq<Card>, p: Seq<int>)
    requires
        cards.len() == 7,
        t.len() == 7,
        p.len() == 7,
        forall|i: int| 0 <= i < 7 ==> 0 <= #[trigger] p[i] < 7,
        forall|i: int, j: int| 0 <= i < j < 7 ==> #[trigger] p[i] != #[trigger] p[j],
        forall|m: int| 0 <= m < 7 ==> #[trigger] position_taken(p, m),
        forall|i: int| 0 <= i < 7 ==> #[trigger] t[i] == cards[p[i]],
    ensures
        seven_card_score(t) == seven_card_score(cards),
{
    lemma_seven_card_score_reindex(cards, t, p);
    let q = Seq::new(7, |m: int| choose|i: int| 0 <= i < 7 && p[i] == m);
    assert forall|m: int| 0 <= m < 7 implies 0 <= #[trigger] q[m] < 7 && p[q[m]] == m by {
        assert(position_taken(p, m));
    }
    assert forall|a: int, b: int| 0 <= a < b < 7 implies #[trigger] q[a] != #[trigger] q[b] by {
        assert(p[q[a]] == a && p[q[b]] == b);
    }
    assert forall|m: int| 0 <= m < 7 implies #[trigger] cards[m] == t[q[m]] by {
        assert(p[q[m]] == m);
        assert(t[q[m]] == cards[p[q[m]]]);
    }
    lemma_seven_card_score_reindex(t, cards, q);
}

// ---------------------------------------------------------------------------------------
// The order of hands
// ---------------------------------------------------------------------------------------

/// `a` comes after `b` in lexicographic order: at the first position where they differ,
/// `a` holds the larger value.
pub open spec fn lex_gt(a: Seq<int>, b: Seq<int>) -> bool
    decreases a.len(),
{
    if a.len() == 0 || b.len() == 0 {
        false
    } else if a[0] != b[0] {
        a[0] > b[0]
    } else {
        lex_gt(a.drop_first(), b.drop_first())
    }
}

/// The ranks that occur exactly `m` times in the hand, highest first.
pub open spec fn rank_group(cards: Seq<Card>, m: int) -> Seq<int> {
    ranks_with_count(rank_counts(cards), m, 13)
}

/// The category of a hand.
pub open spec fn hand_category(cards: Seq<Card>) -> HandRankCategory {
    category_from_counts(rank_counts(cards), all_same_suit(cards))
}

/// Position of a category from the strongest (straight flush, 0) to the weakest (high card, 8).
pub open spec fn category_rank(c: HandRankCategory) -> int {
    match c {
        HandRankCategory::StraightFlush => 0,
        HandRankCategory::FourOfAKind => 1,
        HandRankCategory::FullHouse => 2,
        HandRankCategory::Flush => 3,
        HandRankCategory::Straight => 4,
        HandRankCategory::ThreeOfAKind => 5,
        HandRankCategory::TwoPair => 6,
        HandRankCategory::OnePair => 7,
        HandRankCategory::HighCard => 8,
    }
}

/// Rank counts `c1` beat `c2` on rank groups: the four-of-a-kind ranks compared first,
/// then the three-of-a-kind ranks, then the pair ranks, then the single cards, each group
/// from its highest rank down.
pub open spec fn counts_beat(c1: Seq<int>, c2: Seq<int>) -> bool {
    let (q1, t1, p1, s1) = (
        ranks_with_count(c1, 4, 13),
        ranks_with_count(c1, 3, 13),
        ranks_with_count(c1, 2, 13),
        ranks_with_count(c1, 1, 13),
    );
    let (q2, t2, p2, s2) = (
        ranks_with_count(c2, 4, 13),
        ranks_with_count(c2, 3, 13),
        ranks_with_count(c2, 2, 13),
        ranks_with_count(c2, 1, 13),
    );
    lex_gt(q1, q2) || (q1 == q2 && (lex_gt(t1, t2) || (t1 == t2 && (lex_gt(p1, p2) || (p1 == p2
        && lex_gt(s1, s2))))))
}

/// Hand `h1` beats hand `h2` on rank groups (see `counts_beat`).
pub open spec fn groups_beat(h1: Seq<Card>, h2: Seq<Card>) -> bool {
    counts_beat(rank_counts(h1), rank_counts(h2))
}

/// The top card of a straight given by its five ranks, highest first: the highest rank,
/// except that the wheel A-5-4-3-2 is five-high.
pub open spec fn straight_high(s: Seq<int>) -> int {
    if s == seq![12int, 3, 2, 1, 0] {
        3
    } else {
        s[0]
    }
}

proof fn lemma_desc_drop_first(s: Seq<int>, n: int)
    requires
        strictly_desc_below(s, n),
        s.len() > 0,
    ensures
        strictly_desc_below(s.drop_first(), n),
{
    let r = s.drop_first();
    assert forall|i: int| 0 <= i < r.len() implies 0 <= #[trigger] r[i] < n by {
        assert(r[i] == s[i + 1]);
    }
    assert forall|i: int, j: int| 0 <= i < j < r.len() implies r[i] > r[j] by {
        assert(r[i] == s[i + 1] && r[j] == s[j + 1]);
    }
}

/// Among rank sets of one size, the colexicographic rank follows the lexicographic order
/// of the ranks listed highest first.
proof fn lemma_colex_lex(s: Seq<int>, t: Seq<int>, n: int)
    requires
        strictly_desc_below(s, n),
        strictly_desc_below(t, n),
        s.len() == t.len(),
        lex_gt(s, t),
    ensures
        colex(s) > colex(t),
    decreases s.len(),
{
    let k = s.len() as int;
    if s[0] != t[0] {
        lemma_colex_nonneg(s);
        lemma_colex_bound(t, n);
        lemma_binom_mono(t[0] + 1, s[0], k);
    } else {
        lemma_desc_drop_first(s, n);
        lemma_desc_drop_first(t, n);
        lemma_colex_lex(s.drop_first(), t.drop_first(), n);
    }
}

proof fn lemma_skip_lex(s1: Seq<int>, s2: Seq<int>, x: int)
    requires
        !s1.contains(x),
        !s2.contains(x),
        lex_gt(s1, s2),
    ensures
        lex_gt(skip_rank(s1, x), skip_rank(s2, x)),
    decreases s1.len(),
{
    let a = skip_rank(s1, x);
    let b = skip_rank(s2, x);
    assert(s1.contains(s1[0]) && s2.contains(s2[0]));
    assert(a[0] == (if s1[0] > x { s1[0] - 1 } else { s1[0] }));
    assert(b[0] == (if s2[0] > x { s2[0] - 1 } else { s2[0] }));
    if s1[0] == s2[0] {
        let r1 = s1.drop_first();
        let r2 = s2.drop_first();
        assert forall|y: int| r1.contains(y) implies s1.contains(y) by {
            let i = choose|i: int| 0 <= i < r1.len() && r1[i] == y;
            assert(s1[i + 1] == y);
        }
        assert forall|y: int| r2.contains(y) implies s2.contains(y) by {
            let i = choose|i: int| 0 <= i < r2.len() && r2[i] == y;
            assert(s2[i + 1] == y);
        }
        lemma_skip_lex(r1, r2, x);
        assert(a.drop_first() =~= skip_rank(r1, x));
        assert(b.drop_first() =~= skip_rank(r2, x));
    }
}

proof fn lemma_kicker_term(e: Seq<int>, k1: int, k2: int)
    requires
        1 <= e.len() <= 2,
        e.len() == 2 ==> e[0] > e[1],
        forall|i: int| 0 <= i < e.len() ==> 0 <= #[trigger] e[i] < 13,
        !e.contains(k1),
        !e.contains(k2),
        0 <= k2 < 13,
        0 <= k1 < 13,
    ensures
        0 <= ranks_above_excluding(k1, e) <= 12 - e.len(),
        k1 > k2 ==> ranks_above_excluding(k1, e) < ranks_above_excluding(k2, e),
{
    reveal_with_fuel(count_above, 3);
    assert(e.contains(e[0]));
    if e.len() == 2 {
        assert(e.contains(e[1]));
        assert(e.drop_last().drop_last() =~= Seq::<int>::empty());
        assert(e.drop_last() =~= seq![e[0]]);
    } else {
        assert(e.drop_last() =~= Seq::<int>::empty());
    }
}

/// The rank groups of a five-card hand of distinct cards, and what its category says of
/// their sizes.
proof fn lemma_group_facts(c: Seq<int>, flush: bool)
    requires
        five_card_shape(c),
        flush ==> ranks_with_count(c, 1, 13).len() == 5,
    ensures
        ({
            let q = ranks_with_count(c, 4, 13);
            let t = ranks_with_count(c, 3, 13);
            let p = ranks_with_count(c, 2, 13);
            let s = ranks_with_count(c, 1, 13);
            let cat = category_from_counts(c, flush);
            &&& strictly_desc_below(q, 13) && strictly_desc_below(t, 13)
            &&& strictly_desc_below(p, 13) && strictly_desc_below(s, 13)
            &&& forall|r: int| q.contains(r) <==> 0 <= r < 13 && c[r] == 4
            &&& forall|r: int| t.contains(r) <==> 0 <= r < 13 && c[r] == 3
            &&& forall|r: int| p.contains(r) <==> 0 <= r < 13 && c[r] == 2
            &&& forall|r: int| s.contains(r) <==> 0 <= r < 13 && c[r] == 1
            &&& 4 * q.len() + 3 * t.len() + 2 * p.len() + s.len() == 5
            &&& cat == HandRankCategory::FourOfAKind ==> q.len() == 1 && s.len() == 1
            &&& cat == HandRankCategory::FullHouse ==> t.len() == 1 && p.len() == 1 && q.len() == 0
            &&& (cat == HandRankCategory::Flush || cat == HandRankCategory::HighCard) ==> s.len() == 5
                && straight_top(s) < 0 && q.len() == 0 && t.len() == 0 && p.len() == 0
            &&& (cat == HandRankCategory::Straight || cat == HandRankCategory::StraightFlush) ==> s.len()
                == 5 && straight_top(s) >= 0 && q.len() == 0 && t.len() == 0 && p.len() == 0
            &&& cat == HandRankCategory::ThreeOfAKind ==> t.len() == 1 && s.len() == 2 && q.len() == 0
                && p.len() == 0
            &&& cat == HandRankCategory::TwoPair ==> p.len() == 2 && s.len() == 1 && q.len() == 0 && t.len()
                == 0
            &&& cat == HandRankCategory::OnePair ==> p.len() == 1 && s.len() == 3 && q.len() == 0 && t.len()
                == 0
        }),
{
    lemma_shape_lengths(c);
    lemma_ranks_with_count(c, 4, 13);
    lemma_ranks_with_count(c, 3, 13);
    lemma_ranks_with_count(c, 2, 13);
    lemma_ranks_with_count(c, 1, 13);
}

/// The requirements shared by the ordering lemmas: two five-card shapes of one category.
pub open spec fn same_category_shapes(c1: Seq<int>, f1: bool, c2: Seq<int>, f2: bool) -> bool {
    &&& five_card_shape(c1)
    &&& five_card_shape(c2)
    &&& f1 ==> ranks_with_count(c1, 1, 13).len() == 5
    &&& f2 ==> ranks_with_count(c2, 1, 13).len() == 5
    &&& category_from_counts(c1, f1) == category_from_counts(c2, f2)
}

proof fn lemma_empty_groups_equal(a: Seq<int>, b: Seq<int>)
    requires
        a.len() == 0,
        b.len() == 0,
    ensures
        a == b,
        !lex_gt(a, b),
{
    assert(a =~= b);
}

proof fn lemma_lex_irreflexive(a: Seq<int>)
    ensures
        !lex_gt(a, a),
    decreases a.len(),
{
    if a.len() > 0 {
        lemma_lex_irreflexive(a.drop_first());
    }
}

proof fn lemma_lex_total(a: Seq<int>, b: Seq<int>)
    requires
        a.len() == b.len(),
        a != b,
    ensures
        lex_gt(a, b) || lex_gt(b, a),
    decreases a.len(),
{
    if a.len() == 0 {
        assert(a =~= b);
    } else if a[0] == b[0] {
        if a.drop_first() == b.drop_first() {
            assert forall|i: int| 0 <= i < a.len() implies a[i] == b[i] by {
                if i > 0 {
                    assert(a[i] == a.drop_first()[i - 1]);
                    assert(b[i] == b.drop_first()[i - 1]);
                }
            }
            assert(a =~= b);
        }
        lemma_lex_total(a.drop_first(), b.drop_first());
    }
}

proof fn lemma_colex_differs(s: Seq<int>, t: Seq<int>)
    requires
        strictly_desc_below(s, 13),
        strictly_desc_below(t, 13),
        s.len() == t.len(),
        s != t,
    ensures
        colex(s) != colex(t),
{
    lemma_lex_total(s, t);
    if lex_gt(s, t) {
        lemma_colex_lex(s, t, 13);
    } else {
        lemma_colex_lex(t, s, 13);
    }
}

proof fn lemma_not_straight_colex(s: Seq<int>)
    requires
        strictly_desc_below(s, 13),
        s.len() == 5,
        straight_top(s) < 0,
    ensures
        colex(s) != colex(wheel_ranks()),
        forall|k: int| 4 <= k <= 12 ==> colex(s) != #[trigger] colex(straight_ranks(k)),
{
    assert(strictly_desc_below(wheel_ranks(), 13));
    if s == wheel_ranks() {
        assert(s =~= wheel_ranks());
    }
    lemma_colex_differs(s, wheel_ranks());
    assert forall|k: int| 4 <= k <= 12 implies colex(s) != #[trigger] colex(straight_ranks(k)) by {
        let st = straight_ranks(k);
        assert(strictly_desc_below(st, 13));
        if s == st {
            assert(s[0] - s[4] == 4);
        }
        lemma_colex_differs(s, st);
    }
}

proof fn lemma_lex_single(a: Seq<int>, b: Seq<int>)
    requires
        a.len() == 1,
        b.len() == 1,
    ensures
        lex_gt(a, b) <==> a[0] > b[0],
        a == b <==> a[0] == b[0],
{
    if a[0] == b[0] {
        assert(a =~= b);
        assert(a.drop_first().len() == 0);
        assert(!lex_gt(a.drop_first(), b.drop_first()));
    }
}

proof fn lemma_order_quads_or_full(c1: Seq<int>, f1: bool, c2: Seq<int>, f2: bool)
    requires
        same_category_shapes(c1, f1, c2, f2),
        category_from_counts(c1, f1) == HandRankCategory::FourOfAKind || category_from_counts(c1, f1)
            == HandRankCategory::FullHouse,
        counts_beat(c1, c2),
    ensures
        score_from_counts(c1, f1) < score_from_counts(c2, f2),
{
    lemma_group_facts(c1, f1);
    lemma_group_facts(c2, f2);
    let (q1, t1, p1, s1) = (
        ranks_with_count(c1, 4, 13),
        ranks_with_count(c1, 3, 13),
        ranks_with_count(c1, 2, 13),
        ranks_with_count(c1, 1, 13),
    );
    let (q2, t2, p2, s2) = (
        ranks_with_count(c2, 4, 13),
        ranks_with_count(c2, 3, 13),
        ranks_with_count(c2, 2, 13),
        ranks_with_count(c2, 1, 13),
    );
    if category_from_counts(c1, f1) == HandRankCategory::FourOfAKind {
        lemma_empty_groups_equal(t1, t2);
        lemma_empty_groups_equal(p1, p2);
        lemma_lex_single(q1, q2);
        lemma_lex_single(s1, s2);
        assert(q1.contains(q1[0]) && q2.contains(q2[0]) && s1.contains(s1[0]) && s2.contains(s2[0]));
        assert(!q1.contains(s1[0]) && !q2.contains(s2[0]));
        lemma_kicker_term(q1, s1[0], s1[0]);
        lemma_kicker_term(q2, s2[0], s2[0]);
        if q1 == q2 {
            lemma_kicker_term(q1, s1[0], s2[0]);
        }
        assert(straight_top(s1) < 0 && straight_top(s2) < 0);
    } else {
        lemma_empty_groups_equal(q1, q2);
        lemma_empty_groups_equal(s1, s2);
        lemma_lex_single(t1, t2);
        lemma_lex_single(p1, p2);
        assert(t1.contains(t1[0]) && t2.contains(t2[0]) && p1.contains(p1[0]) && p2.contains(p2[0]));
        assert(!t1.contains(p1[0]) && !t2.contains(p2[0]));
        lemma_kicker_term(t1, p1[0], p1[0]);
        lemma_kicker_term(t2, p2[0], p2[0]);
        if t1 == t2 {
            lemma_kicker_term(t1, p1[0], p2[0]);
        }
        assert(straight_top(s1) < 0 && straight_top(s2) < 0);
    }
}

proof fn lemma_order_distinct_ranks(c1: Seq<int>, f1: bool, c2: Seq<int>, f2: bool)
    requires
        same_category_shapes(c1, f1, c2, f2),
        category_from_counts(c1, f1) == HandRankCategory::Flush || category_from_counts(c1, f1)
            == HandRankCategory::HighCard,
        counts_beat(c1, c2),
    ensures
        score_from_counts(c1, f1) < score_from_counts(c2, f2),
{
    lemma_group_facts(c1, f1);
    lemma_group_facts(c2, f2);
    let s1 = ranks_with_count(c1, 1, 13);
    let s2 = ranks_with_count(c2, 1, 13);
    lemma_empty_groups_equal(ranks_with_count(c1, 4, 13), ranks_with_count(c2, 4, 13));
    lemma_empty_groups_equal(ranks_with_count(c1, 3, 13), ranks_with_count(c2, 3, 13));
    lemma_empty_groups_equal(ranks_with_count(c1, 2, 13), ranks_with_count(c2, 2, 13));
    assert(lex_gt(s1, s2));
    lemma_colex_lex(s1, s2, 13);
    lemma_binom_values();
    assert(colex(s1) > colex(s2));
    lemma_not_straight_colex(s1);
    lemma_not_straight_colex(s2);
    assert(colex(s1) != colex(straight_ranks(4)) && colex(s1) != colex(straight_ranks(5)) && colex(s1)
        != colex(straight_ranks(6)) && colex(s1) != colex(straight_ranks(7)) && colex(s1) != colex(
        straight_ranks(8),
    ) && colex(s1) != colex(straight_ranks(9)) && colex(s1) != colex(straight_ranks(10)) && colex(s1)
        != colex(straight_ranks(11)) && colex(s1) != colex(straight_ranks(12)));
    assert(straights_above(colex(s2)) - straights_above(colex(s1)) < colex(s1) - colex(s2));
    assert(distinct_ranks_index(s1) == (binom(13, 5) - 1 - colex(s1)) - straights_above(colex(s1)));
    assert(distinct_ranks_index(s2) == (binom(13, 5) - 1 - colex(s2)) - straights_above(colex(s2)));
    assert(distinct_ranks_index(s1) < distinct_ranks_index(s2));
}

proof fn lemma_order_trips_or_pair(c1: Seq<int>, f1: bool, c2: Seq<int>, f2: bool)
    requires
        same_category_shapes(c1, f1, c2, f2),
        category_from_counts(c1, f1) == HandRankCategory::ThreeOfAKind || category_from_counts(c1, f1)
            == HandRankCategory::OnePair,
        counts_beat(c1, c2),
    ensures
        score_from_counts(c1, f1) < score_from_counts(c2, f2),
{
    lemma_group_facts(c1, f1);
    lemma_group_facts(c2, f2);
    lemma_binom_values();
    let (q1, t1, p1, s1) = (
        ranks_with_count(c1, 4, 13),
        ranks_with_count(c1, 3, 13),
        ranks_with_count(c1, 2, 13),
        ranks_with_count(c1, 1, 13),
    );
    let (q2, t2, p2, s2) = (
        ranks_with_count(c2, 4, 13),
        ranks_with_count(c2, 3, 13),
        ranks_with_count(c2, 2, 13),
        ranks_with_count(c2, 1, 13),
    );
    lemma_empty_groups_equal(q1, q2);
    assert(straight_top(s1) < 0 && straight_top(s2) < 0);
    let (g1, g2) = if category_from_counts(c1, f1) == HandRankCategory::ThreeOfAKind {
        lemma_empty_groups_equal(p1, p2);
        (t1, t2)
    } else {
        lemma_empty_groups_equal(t1, t2);
        (p1, p2)
    };
    lemma_lex_single(g1, g2);
    assert(g1.contains(g1[0]) && g2.contains(g2[0]));
    assert(!s1.contains(g1[0]) && !s2.contains(g2[0]));
    lemma_skip_rank(s1, g1[0]);
    lemma_skip_rank(s2, g2[0]);
    lemma_colex_bound(skip_rank(s1, g1[0]), 12);
    lemma_colex_bound(skip_rank(s2, g2[0]), 12);
    lemma_colex_nonneg(skip_rank(s1, g1[0]));
    lemma_colex_nonneg(skip_rank(s2, g2[0]));
    if g1 == g2 {
        lemma_skip_lex(s1, s2, g1[0]);
        lemma_colex_lex(skip_rank(s1, g1[0]), skip_rank(s2, g1[0]), 12);
    }
}

proof fn lemma_order_two_pair(c1: Seq<int>, f1: bool, c2: Seq<int>, f2: bool)
    requires
        same_category_shapes(c1, f1, c2, f2),
        category_from_counts(c1, f1) == HandRankCategory::TwoPair,
        counts_beat(c1, c2),
    ensures
        score_from_counts(c1, f1) < score_from_counts(c2, f2),
{
    lemma_group_facts(c1, f1);
    lemma_group_facts(c2, f2);
    lemma_binom_values();
    let (q1, t1, p1, s1) = (
        ranks_with_count(c1, 4, 13),
        ranks_with_count(c1, 3, 13),
        ranks_with_count(c1, 2, 13),
        ranks_with_count(c1, 1, 13),
    );
    let (q2, t2, p2, s2) = (
        ranks_with_count(c2, 4, 13),
        ranks_with_count(c2, 3, 13),
        ranks_with_count(c2, 2, 13),
        ranks_with_count(c2, 1, 13),
    );
    lemma_empty_groups_equal(q1, q2);
    lemma_empty_groups_equal(t1, t2);
    assert(straight_top(s1) < 0 && straight_top(s2) < 0);
    lemma_lex_single(s1, s2);
    assert(s1.contains(s1[0]) && s2.contains(s2[0]));
    assert(!p1.contains(s1[0]) && !p2.contains(s2[0]));
    lemma_kicker_term(p1, s1[0], s1[0]);
    lemma_kicker_term(p2, s2[0], s2[0]);
    lemma_colex_bound(p1, 13);
    lemma_colex_bound(p2, 13);
    lemma_colex_nonneg(p1);
    lemma_colex_nonneg(p2);
    if p1 == p2 {
        lemma_lex_irreflexive(p1);
        assert(lex_gt(s1, s2));
        assert(s1[0] > s2[0]);
        lemma_kicker_term(p1, s1[0], s2[0]);
        assert(ranks_above_excluding(s1[0], p1) < ranks_above_excluding(s2[0], p2));
    } else {
        assert(lex_gt(p1, p2));
        lemma_colex_lex(p1, p2, 13);
        assert(colex(p1) > colex(p2));
    }
}

proof fn lemma_order_straights(c1: Seq<int>, f1: bool, c2: Seq<int>, f2: bool)
    requires
        same_category_shapes(c1, f1, c2, f2),
        category_from_counts(c1, f1) == HandRankCategory::Straight || category_from_counts(c1, f1)
            == HandRankCategory::StraightFlush,
    ensures
        straight_high(ranks_with_count(c1, 1, 13)) > straight_high(ranks_with_count(c2, 1, 13))
            ==> score_from_counts(c1, f1) < score_from_counts(c2, f2),
        3 <= straight_high(ranks_with_count(c1, 1, 13)) <= 12,
{
    lemma_group_facts(c1, f1);
    lemma_group_facts(c2, f2);
    let s1 = ranks_with_count(c1, 1, 13);
    let s2 = ranks_with_count(c2, 1, 13);
    assert(straight_top(s1) == straight_high(s1)) by {
        if s1[0] - s1[4] == 4 {
            assert(s1 != seq![12int, 3, 2, 1, 0]);
        } else {
            assert(s1 =~= seq![12int, 3, 2, 1, 0]);
        }
    }
    assert(straight_top(s2) == straight_high(s2)) by {
        if s2[0] - s2[4] == 4 {
            assert(s2 != seq![12int, 3, 2, 1, 0]);
        } else {
            assert(s2 =~= seq![12int, 3, 2, 1, 0]);
        }
    }
    assert(s1[4] >= 0 && s1[0] < 13);
}

/// Stronger categories score lower.
proof fn lemma_order_categories(c1: Seq<int>, f1: bool, c2: Seq<int>, f2: bool)
    requires
        five_card_shape(c1),
        five_card_shape(c2),
        f1 ==> ranks_with_count(c1, 1, 13).len() == 5,
        f2 ==> ranks_with_count(c2, 1, 13).len() == 5,
        category_rank(category_from_counts(c1, f1)) < category_rank(category_from_counts(c2, f2)),
    ensures
        score_from_counts(c1, f1) < score_from_counts(c2, f2),
{
    lemma_score_category(c1, f1);
    lemma_score_category(c2, f2);
}

/// Hands are scored in the standard order of poker hands, lower scores beating higher ones:
/// a hand of a stronger category always scores lower; within a category, straights (and
/// straight flushes) are ordered by their top card, the wheel being five-high, and all
/// other hands by their rank groups, compared from the most significant group down (the
/// four or three of a kind, then the pairs, then the kickers, each highest rank first);
/// two hands of one category with the same rank groups score the same.
pub proof fn lemma_hand_score_order(h1: Seq<Card>, h2: Seq<Card>)
    requires
        h1.len() == 5,
        h2.len() == 5,
        distinct_valid(h1),
        distinct_valid(h2),
    ensures
        category_rank(hand_category(h1)) < category_rank(hand_category(h2)) ==> hand_score(h1) < hand_score(h2),
        hand_category(h1) == hand_category(h2) && hand_category(h1) != HandRankCategory::Straight
            && hand_category(h1) != HandRankCategory::StraightFlush && groups_beat(h1, h2) ==> hand_score(h1)
            < hand_score(h2),
        hand_category(h1) == hand_category(h2) && (hand_category(h1) == HandRankCategory::Straight
            || hand_category(h1) == HandRankCategory::StraightFlush) && straight_high(rank_group(h1, 1))
            > straight_high(rank_group(h2, 1)) ==> hand_score(h1) < hand_score(h2),
        hand_category(h1) == hand_category(h2) && rank_group(h1, 4) == rank_group(h2, 4) && rank_group(
            h1,
            3,
        ) == rank_group(h2, 3) && rank_group(h1, 2) == rank_group(h2, 2) && rank_group(h1, 1) == rank_group(
            h2,
            1,
        ) ==> hand_score(h1) == hand_score(h2),
{
    let (c1, f1) = (rank_counts(h1), all_same_suit(h1));
    let (c2, f2) = (rank_counts(h2), all_same_suit(h2));
    lemma_hand_shape(h1);
    lemma_hand_shape(h2);
    if category_rank(category_from_counts(c1, f1)) < category_rank(category_from_counts(c2, f2)) {
        lemma_order_categories(c1, f1, c2, f2);
    }
    if category_from_counts(c1, f1) == category_from_counts(c2, f2) {
        let cat = category_from_counts(c1, f1);
        if cat == HandRankCategory::Straight || cat == HandRankCategory::StraightFlush {
            lemma_order_straights(c1, f1, c2, f2);
        } else if counts_beat(c1, c2) {
            if cat == HandRankCategory::FourOfAKind || cat == HandRankCategory::FullHouse {
                lemma_order_quads_or_full(c1, f1, c2, f2);
            } else if cat == HandRankCategory::Flush || cat == HandRankCategory::HighCard {
                lemma_order_distinct_ranks(c1, f1, c2, f2);
            } else if cat == HandRankCategory::ThreeOfAKind || cat == HandRankCategory::OnePair {
                lemma_order_trips_or_pair(c1, f1, c2, f2);
            } else {
                lemma_order_two_pair(c1, f1, c2, f2);
            }
        }
        if ranks_with_count(c1, 4, 13) == ranks_with_count(c2, 4, 13) && ranks_with_count(c1, 3, 13)
            == ranks_with_count(c2, 3, 13) && ranks_with_count(c1, 2, 13) == ranks_with_count(c2, 2, 13)
            && ranks_with_count(c1, 1, 13) == ranks_with_count(c2, 1, 13) {
            lemma_same_groups_same_score(c1, f1, c2, f2);
        }
    }
}

proof fn lemma_same_groups_same_score(c1: Seq<int>, f1: bool, c2: Seq<int>, f2: bool)
    requires
        same_category_shapes(c1, f1, c2, f2),
        ranks_with_count(c1, 4, 13) == ranks_with_count(c2, 4, 13),
        ranks_with_count(c1, 3, 13) == ranks_with_count(c2, 3, 13),
        ranks_with_count(c1, 2, 13) == ranks_with_count(c2, 2, 13),
        ranks_with_count(c1, 1, 13) == ranks_with_count(c2, 1, 13),
    ensures
        score_from_counts(c1, f1) == score_from_counts(c2, f2),
{
    lemma_group_facts(c1, f1);
    lemma_group_facts(c2, f2);
    assert forall|r: int| 0 <= r < 13 implies #[trigger] c1[r] == c2[r] by {
        assert(0 <= c1[r] <= 4 && 0 <= c2[r] <= 4);
        if c1[r] == 4 || c2[r] == 4 {
            assert(ranks_with_count(c1, 4, 13).contains(r) || ranks_with_count(c2, 4, 13).contains(r));
        } else if c1[r] == 3 || c2[r] == 3 {
            assert(ranks_with_count(c1, 3, 13).contains(r) || ranks_with_count(c2, 3, 13).contains(r));
        } else if c1[r] == 2 || c2[r] == 2 {
            assert(ranks_with_count(c1, 2, 13).contains(r) || ranks_with_count(c2, 2, 13).contains(r));
        } else if c1[r] == 1 || c2[r] == 1 {
            assert(ranks_with_count(c1, 1, 13).contains(r) || ranks_with_count(c2, 1, 13).contains(r));
        }
    }
    assert(c1 =~= c2);
}

} // verus!


