//! Bijection between the 1326 two-card starting hands and the indices `0..1326`, and the
//! 169 canonical starting-hand categories.
use vstd::prelude::*;
use crate::card::{Card, Rank, Suit, rank_from_index, suit_from_index};
use crate::deck::DeckBitmask;

verus! {

/// Total number of unique 2-card starting hand combinations in Texas Hold'em: 52 * 51 / 2 = 1326.
pub const NUM_HOLE_COMBOS: usize = 1326;

/// Number of combinations whose lower card index is below `a`: `51 + 50 + ... + (52 - a)`.
pub open spec fn combo_offset(a: int) -> int {
    51 * a - a * (a - 1) / 2
}

/// The combo index of the card indices `a < b`: combos are numbered by lower card, then upper.
pub open spec fn combo_index(a: int, b: int) -> int {
    combo_offset(a) + (b - a - 1)
}

/// The combo index of two card indices in either order; a card paired with itself maps to 0.
pub open spec fn pair_combo(a: int, b: int) -> int {
    if a == b {
        0
    } else if a < b {
        combo_index(a, b)
    } else {
        combo_index(b, a)
    }
}

proof fn lemma_offset_facts(a: int)
    requires
        0 <= a <= 51,
    ensures
        combo_offset(a + 1) == combo_offset(a) + (51 - a),
        0 <= combo_offset(a) <= 1326,
        combo_offset(51) == 1326,
{
    assert(a * (a - 1) / 2 + a == (a + 1) * a / 2) by (nonlinear_arith)
        requires
            a >= 0,
    ;
    assert(0 <= a * (a - 1) / 2 <= 51 * a) by (nonlinear_arith)
        requires
            0 <= a <= 51,
    ;
    assert(51 * 50 / 2 == 1275);
    assert(51 * a - a * (a - 1) / 2 <= 1326) by (nonlinear_arith)
        requires
            0 <= a <= 51,
    ;
}

proof fn lemma_offset_mono(a: int, b: int)
    requires
        0 <= a <= b <= 51,
    ensures
        combo_offset(a) + (b - a) <= combo_offset(b),
    decreases b - a,
{
    if a < b {
        lemma_offset_mono(a, b - 1);
        lemma_offset_facts(b - 1);
    }
}

/// Combo indices of pairs `a < b < 52` fall in `[offset(a), offset(a + 1))`.
pub proof fn lemma_combo_index_range(a: int, b: int)
    requires
        0 <= a < b < 52,
    ensures
        combo_offset(a) <= combo_index(a, b) < combo_offset(a + 1),
        0 <= combo_index(a, b) < 1326,
{
    lemma_offset_facts(a);
    lemma_offset_facts(a + 1);
    lemma_offset_mono(a + 1, 51);
}

/// The combo index is a bijection from the pairs of card indices `a < b < 52` onto
/// `[0, 1326)`.
pub proof fn lemma_combo_index_bijective(a1: int, b1: int, a2: int, b2: int, i: int)
    requires
        0 <= a1 < b1 < 52,
        0 <= a2 < b2 < 52,
    ensures
        0 <= combo_index(a1, b1) < 1326,
        combo_index(a1, b1) == combo_index(a2, b2) ==> a1 == a2 && b1 == b2,
        0 <= i < 1326 ==> exists|a: int, b: int| 0 <= a < b < 52 && combo_index(a, b) == i,
{
    lemma_combo_index_range(a1, b1);
    lemma_combo_index_range(a2, b2);
    if combo_index(a1, b1) == combo_index(a2, b2) && a1 != a2 {
        if a1 < a2 {
            lemma_offset_mono(a1 + 1, a2);
        } else {
            lemma_offset_mono(a2 + 1, a1);
        }
    }
    if 0 <= i < 1326 {
        let (a, b) = combo_pair_of(i);
        assert(combo_index(a, b) == i);
    }
}

/// The pair of card indices whose combo index is `i`.
proof fn combo_pair_of(i: int) -> (r: (int, int))
    requires
        0 <= i < 1326,
    ensures
        0 <= r.0 < r.1 < 52,
        combo_index(r.0, r.1) == i,
{
    let a = choose_lower(i, 0);
    lemma_offset_facts(a);
    (a, i - combo_offset(a) + a + 1)
}

proof fn choose_lower(i: int, a: int) -> (r: int)
    requires
        0 <= a <= 50,
        combo_offset(a) <= i < 1326,
    ensures
        0 <= r <= 50,
        combo_offset(r) <= i < combo_offset(r + 1),
    decreases 51 - a,
{
    lemma_offset_facts(a);
    if i < combo_offset(a + 1) {
        a
    } else {
        lemma_offset_facts(a + 1);
        if a + 1 > 50 {
            lemma_offset_facts(51);
            a
        } else {
            choose_lower(i, a + 1)
        }
    }
}

/// Returns the unique combo index in [0, 1326) for the given pair of cards, in either order.
pub fn cards_to_combo(c1: Card, c2: Card) -> (r: usize)
    requires
        c1.valid(),
        c2.valid(),
    ensures
        r == pair_combo(c1.index_of(), c2.index_of()),
        r < NUM_HOLE_COMBOS,
{
    let a = c1.index();
    let b = c2.index();
    if a == b {
        return 0;
    }
    let (lo, hi) = if a < b { (a, b) } else { (b, a) };
    combo_index_of(lo, hi)
}

fn combo_index_of(lo: usize, hi: usize) -> (r: usize)
    requires
        lo < hi < 52,
    ensures
        r == combo_index(lo as int, hi as int),
        r < NUM_HOLE_COMBOS,
{
    proof {
        lemma_combo_index_range(lo as int, hi as int);
        lemma_offset_facts(lo as int);
    }
    let tri = if lo == 0 {
        0
    } else {
        proof {
            assert(lo * (lo - 1) <= 51 * 50) by (nonlinear_arith)
                requires
                    1 <= lo <= 51,
            ;
        }
        lo * (lo - 1) / 2
    };
    51 * lo - tri + (hi - lo - 1)
}

/// Returns the pair of cards corresponding to the given combo index in [0, 1326), lower
/// card index first.
pub fn combo_to_cards(index: usize) -> (r: (Card, Card))
    requires
        index < NUM_HOLE_COMBOS,
    ensures
        r.0.valid(),
        r.1.valid(),
        r.0.index_of() < r.1.index_of(),
        combo_index(r.0.index_of(), r.1.index_of()) == index,
{
    let mut a: usize = 0;
    let mut offset: usize = 0;
    proof {
        lemma_offset_facts(0);
    }
    while a < 50 && index >= offset + (51 - a)
        invariant
            a <= 50,
            offset == combo_offset(a as int),
            offset <= index,
            index < 1326,
        decreases 50 - a,
    {
        proof {
            lemma_offset_facts(a as int);
        }
        offset = offset + (51 - a);
        a = a + 1;
    }
    proof {
        lemma_offset_facts(a as int);
        if a == 50 {
            lemma_offset_facts(51);
        }
    }
    let b = index - offset + a + 1;
    let c1 = match Card::from_index(a) {
        Ok(c) => c,
        Err(_) => Card::from_raw(0),
    };
    let c2 = match Card::from_index(b) {
        Ok(c) => c,
        Err(_) => Card::from_raw(0),
    };
    (c1, c2)
}

/// Returns the DeckBitmask with the 2 bits set for the given combo index.
pub fn combo_to_bitmask(index: usize) -> (d: DeckBitmask)
    requires
        index < NUM_HOLE_COMBOS,
    ensures
        exists|a: int, b: int|
            0 <= a < b < 52 && combo_index(a, b) == index && d@ == set![a, b],
{
    let (c1, c2) = combo_to_cards(index);
    let mut d = DeckBitmask::empty();
    d.add_card(c1);
    d.add_card(c2);
    proof {
        assert(d@ =~= set![c1.index_of(), c2.index_of()]);
    }
    d
}

/// Lookup tables for the mapping between card pairs and combo indices.
pub struct ComboTables {
    /// Maps combo index in [0, 1326) to the ordered pair of Cards (card1 < card2).
    pub combo_to_cards: Vec<(Card, Card)>,
    /// Maps pair of card indices [c1][c2] in [0, 52) to the combo index in [0, 1326).
    pub card_pair_to_combo: Vec<Vec<u16>>,
    /// Maps combo index to the corresponding DeckBitmask with exactly 2 bits set.
    pub combo_to_mask: Vec<DeckBitmask>,
}

/// Builds the combo lookup tables by enumerating the pairs `c1 < c2` in order.
pub fn init_combo_tables() -> (t: ComboTables)
    ensures
        t.combo_to_cards@.len() == NUM_HOLE_COMBOS,
        t.combo_to_mask@.len() == NUM_HOLE_COMBOS,
        t.card_pair_to_combo@.len() == 52,
        forall|i: int| 0 <= i < 52 ==> (#[trigger] t.card_pair_to_combo@[i])@.len() == 52,
        forall|a: int, b: int|
            0 <= a < 52 && 0 <= b < 52 ==> (#[trigger] t.card_pair_to_combo@[a]@[b]) as int
                == pair_combo(a, b),
        forall|i: int|
            0 <= i < NUM_HOLE_COMBOS ==> {
                let (x, y) = #[trigger] t.combo_to_cards@[i];
                &&& x.valid() && y.valid()
                &&& x.index_of() < y.index_of()
                &&& combo_index(x.index_of(), y.index_of()) == i
                &&& t.combo_to_mask@[i]@ == set![x.index_of(), y.index_of()]
            },
{
    let mut pair_table: Vec<Vec<u16>> = Vec::new();
    let mut a: usize = 0;
    while a < 52
        invariant
            a <= 52,
            pair_table@.len() == a,
            forall|i: int| 0 <= i < a ==> (#[trigger] pair_table@[i])@.len() == 52,
            forall|i: int, j: int|
                0 <= i < a && 0 <= j < 52 ==> (#[trigger] pair_table@[i]@[j]) as int == pair_combo(i, j),
        decreases 52 - a,
    {
        let mut row: Vec<u16> = Vec::new();
        let mut b: usize = 0;
        while b < 52
            invariant
                a < 52,
                b <= 52,
                row@.len() == b,
                forall|j: int| 0 <= j < b ==> (#[trigger] row@[j]) as int == pair_combo(a as int, j),
            decreases 52 - b,
        {
            let v: u16 = if a == b {
                0
            } else {
                let (lo, hi) = if a < b { (a, b) } else { (b, a) };
                combo_index_of(lo, hi) as u16
            };
            row.push(v);
            b = b + 1;
        }
        pair_table.push(row);
        a = a + 1;
    }
    let mut to_cards: Vec<(Card, Card)> = Vec::new();
    let mut to_mask: Vec<DeckBitmask> = Vec::new();
    let mut i: usize = 0;
    while i < NUM_HOLE_COMBOS
        invariant
            i <= NUM_HOLE_COMBOS,
            to_cards@.len() == i,
            to_mask@.len() == i,
            forall|k: int|
                0 <= k < i ==> {
                    let (x, y) = #[trigger] to_cards@[k];
                    &&& x.valid() && y.valid()
                    &&& x.index_of() < y.index_of()
                    &&& combo_index(x.index_of(), y.index_of()) == k
                    &&& to_mask@[k]@ == set![x.index_of(), y.index_of()]
                },
        decreases NUM_HOLE_COMBOS - i,
    {
        let (x, y) = combo_to_cards(i);
        let mut m = DeckBitmask::empty();
        m.add_card(x);
        m.add_card(y);
        proof {
            assert(m@ =~= set![x.index_of(), y.index_of()]);
        }
        to_cards.push((x, y));
        to_mask.push(m);
        i = i + 1;
    }
    ComboTables { combo_to_cards: to_cards, card_pair_to_combo: pair_table, combo_to_mask: to_mask }
}

/// Canonical classification for the 169 starting hand categories.
#[derive(Debug, Copy, Clone, PartialEq, Eq, Hash, Structural)]
pub enum CanonicalHand {
    /// Pocket pair (e.g. AA, KK): 6 combinations.
    Pair(Rank),
    /// Suited cards with r1 > r2 (e.g. AKs, QJs): 4 combinations.
    Suited(Rank, Rank),
    /// Offsuit cards with r1 > r2 (e.g. AKo, QJo): 12 combinations.
    Offsuit(Rank, Rank),
}

/// The combo index of the cards (rank `r1`, suit `s1`) and (rank `r2`, suit `s2`).
pub open spec fn card_pair_combo(r1: int, s1: int, r2: int, s2: int) -> int {
    pair_combo(r1 * 4 + s1, r2 * 4 + s2)
}

/// The combo indices of a canonical hand, in the order the suits are enumerated.
pub open spec fn canonical_combos(h: CanonicalHand) -> Seq<int> {
    match h {
        CanonicalHand::Pair(r) => {
            let x = r.idx() as int;
            seq![
                card_pair_combo(x, 0, x, 1),
                card_pair_combo(x, 0, x, 2),
                card_pair_combo(x, 0, x, 3),
                card_pair_combo(x, 1, x, 2),
                card_pair_combo(x, 1, x, 3),
                card_pair_combo(x, 2, x, 3),
            ]
        },
        CanonicalHand::Suited(hi, lo) => {
            let (x, y) = (hi.idx() as int, lo.idx() as int);
            seq![
                card_pair_combo(x, 0, y, 0),
                card_pair_combo(x, 1, y, 1),
                card_pair_combo(x, 2, y, 2),
                card_pair_combo(x, 3, y, 3),
            ]
        },
        CanonicalHand::Offsuit(hi, lo) => {
            let (x, y) = (hi.idx() as int, lo.idx() as int);
            seq![
                card_pair_combo(x, 0, y, 1),
                card_pair_combo(x, 0, y, 2),
                card_pair_combo(x, 0, y, 3),
                card_pair_combo(x, 1, y, 0),
                card_pair_combo(x, 1, y, 2),
                card_pair_combo(x, 1, y, 3),
                card_pair_combo(x, 2, y, 0),
                card_pair_combo(x, 2, y, 1),
                card_pair_combo(x, 2, y, 3),
                card_pair_combo(x, 3, y, 0),
                card_pair_combo(x, 3, y, 1),
                card_pair_combo(x, 3, y, 2),
            ]
        },
    }
}

impl CanonicalHand {
    /// Returns the combo indices in [0, 1326) belonging to this canonical hand.
    pub fn combo_indices(self) -> (v: Vec<usize>)
        ensures
            v@.map_values(|i: usize| i as int) == canonical_combos(self),
            forall|i: int| 0 <= i < v@.len() ==> #[trigger] v@[i] < NUM_HOLE_COMBOS,
    {
        let mut combos: Vec<usize> = Vec::new();
        match self {
            CanonicalHand::Pair(rank) => {
                let mut s1: usize = 0;
                while s1 < 4
                    invariant
                        s1 <= 4,
                        combos@.len() == if s1 == 0 { 0int } else if s1 == 1 { 3int } else if s1 == 2 { 5int } else { 6int },
                        forall|i: int| 0 <= i < combos@.len() ==> #[trigger] combos@[i] < NUM_HOLE_COMBOS,
                        forall|i: int|
                            0 <= i < combos@.len() ==> combos@[i] as int == #[trigger] canonical_combos(self)[i],
                        self == CanonicalHand::Pair(rank),
                    decreases 4 - s1,
                {
                    let mut s2: usize = s1 + 1;
                    let ghost base = combos@.len();
                    while s2 < 4
                        invariant
                            s1 < 4,
                            s1 + 1 <= s2 <= 4,
                            base == if s1 == 0 { 0int } else if s1 == 1 { 3int } else if s1 == 2 { 5int } else { 6int },
                            combos@.len() == base + (s2 - s1 - 1),
                            forall|i: int| 0 <= i < combos@.len() ==> #[trigger] combos@[i] < NUM_HOLE_COMBOS,
                            forall|i: int|
                                0 <= i < combos@.len() ==> combos@[i] as int == #[trigger] canonical_combos(self)[i],
                            self == CanonicalHand::Pair(rank),
                        decreases 4 - s2,
                    {
                        let c1 = Card::new(rank, suit_of_index(s1));
                        let c2 = Card::new(rank, suit_of_index(s2));
                        let idx = cards_to_combo(c1, c2);
                        combos.push(idx);
                        s2 = s2 + 1;
                    }
                    s1 = s1 + 1;
                }
            },
            CanonicalHand::Suited(high_rank, low_rank) => {
                let mut s: usize = 0;
                while s < 4
                    invariant
                        s <= 4,
                        combos@.len() == s,
                        forall|i: int| 0 <= i < combos@.len() ==> #[trigger] combos@[i] < NUM_HOLE_COMBOS,
                        forall|i: int|
                            0 <= i < combos@.len() ==> combos@[i] as int == #[trigger] canonical_combos(self)[i],
                        self == CanonicalHand::Suited(high_rank, low_rank),
                    decreases 4 - s,
                {
                    let suit = suit_of_index(s);
                    let c1 = Card::new(high_rank, suit);
                    let c2 = Card::new(low_rank, suit);
                    combos.push(cards_to_combo(c1, c2));
                    s = s + 1;
                }
            },
            CanonicalHand::Offsuit(high_rank, low_rank) => {
                let mut s1: usize = 0;
                while s1 < 4
                    invariant
                        s1 <= 4,
                        combos@.len() == 3 * s1,
                        forall|i: int| 0 <= i < combos@.len() ==> #[trigger] combos@[i] < NUM_HOLE_COMBOS,
                        forall|i: int|
                            0 <= i < combos@.len() ==> combos@[i] as int == #[trigger] canonical_combos(self)[i],
                        self == CanonicalHand::Offsuit(high_rank, low_rank),
                    decreases 4 - s1,
                {
                    let mut s2: usize = 0;
                    while s2 < 4
                        invariant
                            s1 < 4,
                            s2 <= 4,
                            combos@.len() == 3 * s1 + s2 - (if s2 > s1 { 1int } else { 0int }),
                            forall|i: int| 0 <= i < combos@.len() ==> #[trigger] combos@[i] < NUM_HOLE_COMBOS,
                            forall|i: int|
                                0 <= i < combos@.len() ==> combos@[i] as int == #[trigger] canonical_combos(self)[i],
                            self == CanonicalHand::Offsuit(high_rank, low_rank),
                        decreases 4 - s2,
                    {
                        if s1 != s2 {
                            let c1 = Card::new(high_rank, suit_of_index(s1));
                            let c2 = Card::new(low_rank, suit_of_index(s2));
                            combos.push(cards_to_combo(c1, c2));
                        }
                        s2 = s2 + 1;
                    }
                    s1 = s1 + 1;
                }
            },
        }
        proof {
            assert(combos@.map_values(|i: usize| i as int) =~= canonical_combos(self));
        }
        combos
    }

    /// Number of natural combinations for this canonical hand (6 for pairs, 4 for suited, 12 for offsuit).
    pub fn num_combos(self) -> (n: usize)
        ensures
            n == canonical_combos(self).len(),
    {
        match self {
            CanonicalHand::Pair(_) => 6,
            CanonicalHand::Suited(_, _) => 4,
            CanonicalHand::Offsuit(_, _) => 12,
        }
    }
}

/// The suit of index `s` (`s < 4`).
fn suit_of_index(s: usize) -> (r: Suit)
    requires
        s < 4,
    ensures
        r.idx() == s,
        r == suit_from_index(s as u32),
{
    match Suit::from_u8(s as u8) {
        Ok(suit) => suit,
        Err(_) => Suit::Spades,
    }
}

/// The rank of index `r` (`r < 13`).
pub fn rank_of_index(r: usize) -> (k: Rank)
    requires
        r < 13,
    ensures
        k.idx() == r,
        k == rank_from_index(r as u32),
{
    match Rank::from_u8(r as u8) {
        Ok(rank) => rank,
        Err(_) => Rank::Two,
    }
}


/// The combo index of two cards does not depend on their order.
pub proof fn lemma_pair_combo_symmetric(a: int, b: int)
    ensures
        pair_combo(a, b) == pair_combo(b, a),
{
}


/// Two card pairs with the same combo index are the same two cards, in one order or the other.
proof fn lemma_pair_combo_injective(a1: int, b1: int, a2: int, b2: int)
    requires
        0 <= a1 < 52,
        0 <= b1 < 52,
        0 <= a2 < 52,
        0 <= b2 < 52,
        a1 != b1,
        a2 != b2,
        pair_combo(a1, b1) == pair_combo(a2, b2),
    ensures
        (a1 == a2 && b1 == b2) || (a1 == b2 && b1 == a2),
{
    let (x1, y1) = if a1 < b1 { (a1, b1) } else { (b1, a1) };
    let (x2, y2) = if a2 < b2 { (a2, b2) } else { (b2, a2) };
    lemma_combo_index_bijective(x1, y1, x2, y2, 0);
}

proof fn lemma_pair_combo_range(a: int, b: int)
    requires
        0 <= a < 52,
        0 <= b < 52,
        a != b,
    ensures
        0 <= pair_combo(a, b) < 1326,
{
    if a < b {
        lemma_combo_index_range(a, b);
    } else {
        lemma_combo_index_range(b, a);
    }
}

/// The suits of the `k`-th combination of a pocket pair.
spec fn pair_suits(k: int) -> (int, int) {
    if k == 0 { (0, 1) }
    else if k == 1 { (0, 2) }
    else if k == 2 { (0, 3) }
    else if k == 3 { (1, 2) }
    else if k == 4 { (1, 3) }
    else { (2, 3) }
}

/// The suits of the `k`-th combination of an offsuit hand (high card's suit, low card's suit).
spec fn offsuit_suits(k: int) -> (int, int) {
    (k / 3, if k % 3 < k / 3 { k % 3 } else { k % 3 + 1 })
}

/// The two ranks of a suited or offsuit canonical hand differ; a pair has one rank.
pub open spec fn canonical_ranks_distinct(h: CanonicalHand) -> bool {
    match h {
        CanonicalHand::Pair(_) => true,
        CanonicalHand::Suited(a, b) => a.idx() != b.idx(),
        CanonicalHand::Offsuit(a, b) => a.idx() != b.idx(),
    }
}

/// The combos of a canonical hand are 6 for a pair, 4 for a suited hand and 12 for an
/// offsuit hand, each in `0..1326`, and no combo is listed twice.
#[verifier::spinoff_prover]
pub proof fn lemma_canonical_combos_distinct(h: CanonicalHand)
    requires
        canonical_ranks_distinct(h),
    ensures
        canonical_combos(h).len() == match h {
            CanonicalHand::Pair(_) => 6int,
            CanonicalHand::Suited(_, _) => 4int,
            CanonicalHand::Offsuit(_, _) => 12int,
        },
        forall|k: int| 0 <= k < canonical_combos(h).len() ==> 0 <= #[trigger] canonical_combos(h)[k] < 1326,
        forall|i: int, j: int|
            0 <= i < j < canonical_combos(h).len() ==> #[trigger] canonical_combos(h)[i] != #[trigger] canonical_combos(h)[j],
{
    let v = canonical_combos(h);
    match h {
        CanonicalHand::Pair(r) => {
            let x = r.idx() as int;
            assert(v =~= Seq::new(6, |k: int| card_pair_combo(x, pair_suits(k).0, x, pair_suits(k).1)));
            assert forall|k: int| 0 <= k < 6 implies 0 <= #[trigger] v[k] < 1326 by {
                lemma_pair_combo_range(x * 4 + pair_suits(k).0, x * 4 + pair_suits(k).1);
            }
            assert forall|i: int, j: int| 0 <= i < j < 6 implies #[trigger] v[i] != #[trigger] v[j] by {
                if v[i] == v[j] {
                    lemma_pair_combo_injective(
                        x * 4 + pair_suits(i).0,
                        x * 4 + pair_suits(i).1,
                        x * 4 + pair_suits(j).0,
                        x * 4 + pair_suits(j).1,
                    );
                }
            }
        },
        CanonicalHand::Suited(hi, lo) => {
            let (x, y) = (hi.idx() as int, lo.idx() as int);
            assert(v =~= Seq::new(4, |k: int| card_pair_combo(x, k, y, k)));
            assert forall|k: int| 0 <= k < 4 implies 0 <= #[trigger] v[k] < 1326 by {
                lemma_pair_combo_range(x * 4 + k, y * 4 + k);
            }
            assert forall|i: int, j: int| 0 <= i < j < 4 implies #[trigger] v[i] != #[trigger] v[j] by {
                if v[i] == v[j] {
                    lemma_pair_combo_injective(x * 4 + i, y * 4 + i, x * 4 + j, y * 4 + j);
                }
            }
        },
        CanonicalHand::Offsuit(hi, lo) => {
            let (x, y) = (hi.idx() as int, lo.idx() as int);
            assert(v =~= Seq::new(12, |k: int| card_pair_combo(x, offsuit_suits(k).0, y, offsuit_suits(k).1)));
            assert forall|k: int| 0 <= k < 12 implies 0 <= #[trigger] v[k] < 1326 by {
                lemma_pair_combo_range(x * 4 + offsuit_suits(k).0, y * 4 + offsuit_suits(k).1);
            }
            assert forall|i: int, j: int| 0 <= i < j < 12 implies #[trigger] v[i] != #[trigger] v[j] by {
                if v[i] == v[j] {
                    lemma_pair_combo_injective(
                        x * 4 + offsuit_suits(i).0,
                        y * 4 + offsuit_suits(i).1,
                        x * 4 + offsuit_suits(j).0,
                        y * 4 + offsuit_suits(j).1,
                    );
                }
            }
        },
    }
}


/// A canonical hand in the usual form: a pair, or two ranks with the higher one first.
pub open spec fn canonical_ordered(h: CanonicalHand) -> bool {
    match h {
        CanonicalHand::Pair(_) => true,
        CanonicalHand::Suited(a, b) => a.idx() > b.idx(),
        CanonicalHand::Offsuit(a, b) => a.idx() > b.idx(),
    }
}

/// The rank index of the first card of a canonical hand's combinations.
pub open spec fn high_idx(h: CanonicalHand) -> int {
    match h {
        CanonicalHand::Pair(r) => r.idx() as int,
        CanonicalHand::Suited(a, _) => a.idx() as int,
        CanonicalHand::Offsuit(a, _) => a.idx() as int,
    }
}

/// The rank index of the second card of a canonical hand's combinations.
pub open spec fn low_idx(h: CanonicalHand) -> int {
    match h {
        CanonicalHand::Pair(r) => r.idx() as int,
        CanonicalHand::Suited(_, b) => b.idx() as int,
        CanonicalHand::Offsuit(_, b) => b.idx() as int,
    }
}

proof fn canonical_entry_suits(h: CanonicalHand, k: int) -> (st: (int, int))
    requires
        0 <= k < canonical_combos(h).len(),
    ensures
        canonical_combos(h)[k] == card_pair_combo(high_idx(h), st.0, low_idx(h), st.1),
        0 <= st.0 < 4,
        0 <= st.1 < 4,
        h is Pair ==> st.0 < st.1,
        h is Suited ==> st.0 == st.1,
        h is Offsuit ==> st.0 != st.1,
{
    let v = canonical_combos(h);
    match h {
        CanonicalHand::Pair(r) => {
            let x = r.idx() as int;
            assert(v =~= Seq::new(6, |j: int| card_pair_combo(x, pair_suits(j).0, x, pair_suits(j).1)));
            pair_suits(k)
        },
        CanonicalHand::Suited(hi, lo) => {
            let (x, y) = (hi.idx() as int, lo.idx() as int);
            assert(v =~= Seq::new(4, |j: int| card_pair_combo(x, j, y, j)));
            (k, k)
        },
        CanonicalHand::Offsuit(hi, lo) => {
            let (x, y) = (hi.idx() as int, lo.idx() as int);
            assert(v =~= Seq::new(12, |j: int| card_pair_combo(x, offsuit_suits(j).0, y, offsuit_suits(j).1)));
            offsuit_suits(k)
        },
    }
}

proof fn lemma_rank_idx_injective(a: Rank, b: Rank)
    requires
        a.idx() == b.idx(),
    ensures
        a == b,
{
}

proof fn lemma_pair_hand_of(a: int, b: int)
    requires
        0 <= a < b < 52,
        a / 4 == b / 4,
    ensures
        canonical_combos(CanonicalHand::Pair(rank_from_index((a / 4) as u32))).contains(combo_index(a, b)),
{
    let h = CanonicalHand::Pair(rank_from_index((a / 4) as u32));
    let (x, sa, sb) = (a / 4, a % 4, b % 4);
    assert(high_idx(h) == x);
    let v = canonical_combos(h);
    assert(v =~= Seq::new(6, |j: int| card_pair_combo(x, pair_suits(j).0, x, pair_suits(j).1)));
    let k = if sa == 0 { sb - 1 } else if sa == 1 { sb + 1 } else { 5 };
    assert(pair_suits(k) == (sa, sb));
    assert(v[k] == combo_index(a, b));
}

proof fn lemma_suited_hand_of(a: int, b: int)
    requires
        0 <= a < b < 52,
        a / 4 != b / 4,
        a % 4 == b % 4,
    ensures
        canonical_combos(
            CanonicalHand::Suited(rank_from_index((b / 4) as u32), rank_from_index((a / 4) as u32)),
        ).contains(combo_index(a, b)),
{
    let h = CanonicalHand::Suited(rank_from_index((b / 4) as u32), rank_from_index((a / 4) as u32));
    let (x, y) = (b / 4, a / 4);
    assert(high_idx(h) == x && low_idx(h) == y);
    let v = canonical_combos(h);
    assert(v =~= Seq::new(4, |j: int| card_pair_combo(x, j, y, j)));
    assert(v[a % 4] == combo_index(a, b));
}

proof fn lemma_offsuit_hand_of(a: int, b: int)
    requires
        0 <= a < b < 52,
        a / 4 != b / 4,
        a % 4 != b % 4,
    ensures
        canonical_combos(
            CanonicalHand::Offsuit(rank_from_index((b / 4) as u32), rank_from_index((a / 4) as u32)),
        ).contains(combo_index(a, b)),
{
    let h = CanonicalHand::Offsuit(rank_from_index((b / 4) as u32), rank_from_index((a / 4) as u32));
    let (x, y, sa, sb) = (b / 4, a / 4, a % 4, b % 4);
    assert(high_idx(h) == x && low_idx(h) == y);
    let v = canonical_combos(h);
    assert(v =~= Seq::new(12, |j: int| card_pair_combo(x, offsuit_suits(j).0, y, offsuit_suits(j).1)));
    let k = sb * 3 + if sa < sb { sa } else { sa - 1 };
    assert(offsuit_suits(k) == (sb, sa));
    assert(v[k] == combo_index(a, b));
}

/// Two canonical hands in the usual form that share a combo are the same hand.
#[verifier::spinoff_prover]
pub proof fn lemma_canonical_unique(h1: CanonicalHand, h2: CanonicalHand, k1: int, k2: int)
    requires
        canonical_ordered(h1),
        canonical_ordered(h2),
        0 <= k1 < canonical_combos(h1).len(),
        0 <= k2 < canonical_combos(h2).len(),
        canonical_combos(h1)[k1] == canonical_combos(h2)[k2],
    ensures
        h1 == h2,
{
    let st1 = canonical_entry_suits(h1, k1);
    let st2 = canonical_entry_suits(h2, k2);
    let (x1, y1, x2, y2) = (high_idx(h1), low_idx(h1), high_idx(h2), low_idx(h2));
    assert(0 <= x1 < 13 && 0 <= y1 < 13 && 0 <= x2 < 13 && 0 <= y2 < 13);
    lemma_pair_combo_injective(x1 * 4 + st1.0, y1 * 4 + st1.1, x2 * 4 + st2.0, y2 * 4 + st2.1);
    match (h1, h2) {
        (CanonicalHand::Pair(p), CanonicalHand::Pair(q)) => {
            lemma_rank_idx_injective(p, q);
        },
        (CanonicalHand::Suited(p1, p2), CanonicalHand::Suited(q1, q2)) => {
            lemma_rank_idx_injective(p1, q1);
            lemma_rank_idx_injective(p2, q2);
        },
        (CanonicalHand::Offsuit(p1, p2), CanonicalHand::Offsuit(q1, q2)) => {
            lemma_rank_idx_injective(p1, q1);
            lemma_rank_idx_injective(p2, q2);
        },
        _ => {},
    }
}

/// The 169 canonical hands partition the 1326 combinations: every combination index in
/// `0..1326` belongs to one canonical hand in the usual form, and to no other.
#[verifier::spinoff_prover]
pub proof fn lemma_canonical_hands_partition(i: int)
    requires
        0 <= i < 1326,
    ensures
        exists|h: CanonicalHand| canonical_ordered(h) && #[trigger] canonical_combos(h).contains(i),
        forall|h1: CanonicalHand, h2: CanonicalHand|
            canonical_ordered(h1) && canonical_ordered(h2) && #[trigger] canonical_combos(h1).contains(i)
                && #[trigger] canonical_combos(h2).contains(i) ==> h1 == h2,
{
    lemma_combo_index_bijective(0, 1, 0, 1, i);
    let (a, b) = choose|a: int, b: int| 0 <= a < b < 52 && combo_index(a, b) == i;
    if a / 4 == b / 4 {
        lemma_pair_hand_of(a, b);
        let h = CanonicalHand::Pair(rank_from_index((a / 4) as u32));
        assert(canonical_ordered(h) && canonical_combos(h).contains(i));
    } else if a % 4 == b % 4 {
        lemma_suited_hand_of(a, b);
        let h = CanonicalHand::Suited(rank_from_index((b / 4) as u32), rank_from_index((a / 4) as u32));
        assert(canonical_ordered(h) && canonical_combos(h).contains(i));
    } else {
        lemma_offsuit_hand_of(a, b);
        let h = CanonicalHand::Offsuit(rank_from_index((b / 4) as u32), rank_from_index((a / 4) as u32));
        assert(canonical_ordered(h) && canonical_combos(h).contains(i));
    }
    assert forall|h1: CanonicalHand, h2: CanonicalHand|
        canonical_ordered(h1) && canonical_ordered(h2) && #[trigger] canonical_combos(h1).contains(i)
            && #[trigger] canonical_combos(h2).contains(i) implies h1 == h2 by {
        let k1 = choose|k: int| 0 <= k < canonical_combos(h1).len() && canonical_combos(h1)[k] == i;
        let k2 = choose|k: int| 0 <= k < canonical_combos(h2).len() && canonical_combos(h2)[k] == i;
        lemma_canonical_unique(h1, h2, k1, k2);
    }
}

/// Each combo of a canonical hand is two cards of the hand's two ranks, suited exactly
/// when the hand is suited: any two valid cards whose combo index is the `k`-th combo of
/// `h` (as `combo_to_cards` returns them) have the ranks `high_idx(h)` and `low_idx(h)`,
/// one each, and share a suit exactly when `h` is `Suited`.
#[verifier::spinoff_prover]
pub proof fn lemma_canonical_combo_cards(h: CanonicalHand, k: int, c1: Card, c2: Card)
    requires
        canonical_ranks_distinct(h),
        0 <= k < canonical_combos(h).len(),
        c1.valid(),
        c2.valid(),
        c1.index_of() != c2.index_of(),
        pair_combo(c1.index_of(), c2.index_of()) == canonical_combos(h)[k],
    ensures
        (c1.rank_idx() == high_idx(h) && c2.rank_idx() == low_idx(h)) || (c1.rank_idx() == low_idx(h)
            && c2.rank_idx() == high_idx(h)),
        (c1.suit_idx() == c2.suit_idx()) <==> h is Suited,
{
    let st = canonical_entry_suits(h, k);
    let (x, y) = (high_idx(h), low_idx(h));
    c1.lemma_valid();
    c2.lemma_valid();
    assert(0 <= x < 13 && 0 <= y < 13);
    lemma_pair_combo_injective(c1.index_of(), c2.index_of(), x * 4 + st.0, y * 4 + st.1);
}

} // verus!



