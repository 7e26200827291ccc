//! 64-bit bitboard of cards: bit `i` stands for the card of deck index `i`.
use vstd::prelude::*;
use vstd::std_specs::bits::axiom_u64_trailing_zeros;
use vstd::string::StringSliceAdditionalSpecFns;
use crate::card::{Card, CardParseError, parse_card_chars, rank_char_of, suit_char_of};
use crate::text::{push_char, trim_str};

verus! {

/// Mask of 52 ones representing all 52 cards in a standard deck.
pub const FULL_DECK_MASK: u64 = 0x000F_FFFF_FFFF_FFFFu64;

/// Bit `i` of `x` is set.
pub open spec fn bit_of(x: u64, i: int) -> bool {
    (x >> (i as u64)) & 1u64 == 1u64
}

/// The set of positions below `n` whose bit is set in `x`.
pub open spec fn bits_below(x: u64, n: int) -> Set<int> {
    Set::new(|i: int| 0 <= i < n && bit_of(x, i))
}

/// Number of set bits of `x` below position `n`.
pub open spec fn popcount_below(x: u64, n: nat) -> nat
    decreases n,
{
    if n == 0 {
        0
    } else {
        popcount_below(x, (n - 1) as nat) + if bit_of(x, n - 1) { 1nat } else { 0nat }
    }
}

/// The set of deck indices below `n`.
pub open spec fn index_range(n: int) -> Set<int> {
    Set::new(|i: int| 0 <= i < n)
}

proof fn lemma_bits_below_len(x: u64, n: nat)
    ensures
        bits_below(x, n as int).finite(),
        bits_below(x, n as int).len() == popcount_below(x, n),
    decreases n,
{
    if n == 0 {
        assert(bits_below(x, 0) =~= Set::<int>::empty());
    } else {
        lemma_bits_below_len(x, (n - 1) as nat);
        let prev = bits_below(x, n - 1);
        if bit_of(x, n - 1) {
            assert(bits_below(x, n as int) =~= prev.insert(n - 1));
        } else {
            assert(bits_below(x, n as int) =~= prev);
        }
    }
}

proof fn lemma_bit_or_one(x: u64, k: u64, i: u64)
    by (bit_vector)
    requires
        k < 64,
        i < 64,
    ensures
        ((x | (1u64 << k)) >> i) & 1u64 == 1u64 <==> ((x >> i) & 1u64 == 1u64 || i == k),
        ((x & !(1u64 << k)) >> i) & 1u64 == 1u64 <==> ((x >> i) & 1u64 == 1u64 && i != k),
{
}

proof fn lemma_bit_binops(x: u64, y: u64, i: u64)
    by (bit_vector)
    requires
        i < 64,
    ensures
        ((x | y) >> i) & 1u64 == 1u64 <==> ((x >> i) & 1u64 == 1u64 || (y >> i) & 1u64 == 1u64),
        ((x & y) >> i) & 1u64 == 1u64 <==> ((x >> i) & 1u64 == 1u64 && (y >> i) & 1u64 == 1u64),
        ((x ^ y) >> i) & 1u64 == 1u64 <==> ((x >> i) & 1u64 == 1u64) != ((y >> i) & 1u64 == 1u64),
        ((x & !y) >> i) & 1u64 == 1u64 <==> ((x >> i) & 1u64 == 1u64 && (y >> i) & 1u64 != 1u64),
        ((!x & 0x000F_FFFF_FFFF_FFFFu64) >> i) & 1u64 == 1u64 <==> (i < 52 && (x >> i) & 1u64
            != 1u64),
        ((x & 0x000F_FFFF_FFFF_FFFFu64) >> i) & 1u64 == 1u64 <==> (i < 52 && (x >> i) & 1u64
            == 1u64),
        (0u64 >> i) & 1u64 != 1u64,
        (0x000F_FFFF_FFFF_FFFFu64 >> i) & 1u64 == 1u64 <==> i < 52,
        x & 0x000F_FFFF_FFFF_FFFFu64 <= 0x000F_FFFF_FFFF_FFFFu64,
{
}

proof fn lemma_bounds(x: u64, y: u64, k: u64)
    by (bit_vector)
    requires
        x <= 0x000F_FFFF_FFFF_FFFFu64,
        y <= 0x000F_FFFF_FFFF_FFFFu64,
        k < 52,
    ensures
        x | y <= 0x000F_FFFF_FFFF_FFFFu64,
        x & y <= 0x000F_FFFF_FFFF_FFFFu64,
        x ^ y <= 0x000F_FFFF_FFFF_FFFFu64,
        x & !y <= 0x000F_FFFF_FFFF_FFFFu64,
        x | (1u64 << k) <= 0x000F_FFFF_FFFF_FFFFu64,
        x & !(1u64 << k) <= 0x000F_FFFF_FFFF_FFFFu64,
        !x & 0x000F_FFFF_FFFF_FFFFu64 <= 0x000F_FFFF_FFFF_FFFFu64,
{
}

proof fn lemma_high_bit_bound(x: u64, t: u64)
    by (bit_vector)
    requires
        x <= 0x000F_FFFF_FFFF_FFFFu64,
        t < 64,
        (x >> t) & 1u64 == 1u64,
    ensures
        t < 52,
{
}

/// The set bits of a mask below 52 name a nonempty set exactly when the mask is nonzero.
proof fn lemma_nonzero(x: u64)
    requires
        x <= FULL_DECK_MASK,
    ensures
        x == 0 <==> bits_below(x, 52) =~= Set::<int>::empty(),
        x != 0 ==> bits_below(x, 52).contains(vstd::std_specs::bits::u64_trailing_zeros(x) as int),
{
    axiom_u64_trailing_zeros(x);
    if x == 0 {
        assert forall|i: int| !bits_below(x, 52).contains(i) by {
            if 0 <= i < 52 {
                lemma_bit_binops(x, x, i as u64);
            }
        }
    } else {
        let t = vstd::std_specs::bits::u64_trailing_zeros(x) as u64;
        lemma_high_bit_bound(x, t);
        assert(bits_below(x, 52).contains(t as int));
    }
}

/// A 64-bit bitboard representation of a deck or subset of cards.
/// Bit `i` corresponds to the card with `card.index() == i` (for `0 <= i < 52`).
#[derive(Copy, Clone, Debug, PartialEq, Eq, Hash, Structural)]
pub struct DeckBitmask(u64);

impl DeckBitmask {
    /// The raw 64-bit value of the bitboard.
    pub closed spec fn raw_bits(self) -> u64 {
        self.0
    }

    #[verifier::type_invariant]
    closed spec fn inv(self) -> bool {
        self.0 <= FULL_DECK_MASK
    }

    /// The deck indices of the cards in this bitboard.
    pub open spec fn cards_view(self) -> Set<int> {
        bits_below(self.raw_bits(), 52)
    }

    /// The set of cards of a bitboard is a finite set of deck indices.
    pub proof fn lemma_wf(self)
        ensures
            self@.finite(),
            self@ <= index_range(52),
    {
        lemma_bits_below_len(self.0, 52);
    }
}

impl View for DeckBitmask {
    type V = Set<int>;

    open spec fn view(&self) -> Set<int> {
        self.cards_view()
    }
}

/// The set of deck indices of the given cards.
pub open spec fn indices_of(cards: Seq<Card>) -> Set<int> {
    Set::new(|i: int| exists|j: int| 0 <= j < cards.len() && cards[j].index_of() == i)
}

/// Every card of the sequence is a valid card.
pub open spec fn all_valid(cards: Seq<Card>) -> bool {
    forall|j: int| 0 <= j < cards.len() ==> (#[trigger] cards[j]).valid()
}

/// The cards named by a byte string read two bytes at a time, or the first error.
pub open spec fn parse_card_pairs(b: Seq<u8>) -> Result<Set<int>, CardParseError>
    decreases b.len(),
{
    if b.len() < 2 {
        Ok(Set::empty())
    } else {
        match parse_card_chars(b[0] as char, b[1] as char) {
            Err(e) => Err(e),
            Ok((r, s)) => match parse_card_pairs(b.skip(2)) {
                Err(e) => Err(e),
                Ok(rest) => Ok(rest.insert(r * 4 + s)),
            },
        }
    }
}

/// The deck that `from_str_multi` builds from the bytes of the trimmed input.
pub open spec fn parse_multi_bytes(b: Seq<u8>) -> Result<Set<int>, CardParseError> {
    if b.len() == 0 {
        Ok(Set::empty())
    } else if b.len() % 2 != 0 {
        Err(CardParseError::InvalidLength(b.len() as usize))
    } else {
        parse_card_pairs(b)
    }
}

/// The names of the cards of `x` at positions `i..52`, in increasing index order.
pub open spec fn names_from(x: u64, i: int) -> Seq<char>
    decreases 52 - i,
{
    if i >= 52 || i < 0 {
        Seq::empty()
    } else if bit_of(x, i) {
        seq![rank_char_of((i / 4) as u32), suit_char_of((i % 4) as u32)] + names_from(x, i + 1)
    } else {
        names_from(x, i + 1)
    }
}

impl DeckBitmask {
    /// Creates an empty deck bitmask (0 cards).
    pub fn empty() -> (d: Self)
        ensures
            d@ == Set::<int>::empty(),
            d.raw_bits() == 0,
    {
        proof {
            assert forall|i: int| !bits_below(0u64, 52).contains(i) by {
                if 0 <= i < 52 {
                    lemma_bit_binops(0, 0, i as u64);
                }
            }
        }
        DeckBitmask(0)
    }

    /// Creates a full deck containing all 52 cards.
    pub fn full() -> (d: Self)
        ensures
            d@ == index_range(52),
            d.raw_bits() == FULL_DECK_MASK,
    {
        proof {
            assert forall|i: int| 0 <= i < 52 implies bits_below(FULL_DECK_MASK, 52).contains(i) by {
                lemma_bit_binops(0, 0, i as u64);
            }
        }
        DeckBitmask(FULL_DECK_MASK)
    }

    /// Creates a DeckBitmask directly from raw u64, masking out bits >= 52.
    pub fn from_u64(raw: u64) -> (d: Self)
        ensures
            d@ == bits_below(raw, 52),
            d.raw_bits() == raw & FULL_DECK_MASK,
    {
        proof {
            lemma_bit_binops(raw, raw, 0);
            assert forall|i: int| 0 <= i < 52 implies bit_of(raw & FULL_DECK_MASK, i) == bit_of(
                raw,
                i,
            ) by {
                lemma_bit_binops(raw, raw, i as u64);
            }
            assert(bits_below(raw & FULL_DECK_MASK, 52) =~= bits_below(raw, 52));
        }
        DeckBitmask(raw & FULL_DECK_MASK)
    }

    /// Returns the raw 64-bit integer representation.
    pub fn as_u64(self) -> (r: u64)
        ensures
            r == self.raw_bits(),
            r <= FULL_DECK_MASK,
            forall|i: int| 0 <= i < 52 ==> (bit_of(r, i) <==> self@.contains(i)),
    {
        proof {
            use_type_invariant(self);
        }
        self.0
    }

    /// Adds a card to the deck bitmask.
    pub fn add_card(&mut self, card: Card)
        requires
            card.fields_readable(),
        ensures
            final(self)@ == old(self)@.insert(card.index_of()),
    {
        proof {
            use_type_invariant(&*self);
        }
        let k = card.index();
        proof {
            lemma_bounds(self.0, 0, k as u64);
            assert forall|i: int| 0 <= i < 52 implies bit_of(self.0 | (1u64 << k as u64), i) == (
            bit_of(self.0, i) || i == k) by {
                lemma_bit_or_one(self.0, k as u64, i as u64);
            }
            assert forall|i: int| #[trigger] bits_below(self.0 | (1u64 << k as u64), 52).contains(i)
                == bits_below(self.0, 52).insert(k as int).contains(i) by {
                if 0 <= i < 52 {
                    lemma_bit_or_one(self.0, k as u64, i as u64);
                }
            }
            assert(bits_below(self.0 | (1u64 << k as u64), 52) =~= bits_below(self.0, 52).insert(
                k as int,
            ));
        }
        self.0 = self.0 | (1u64 << k);
    }

    /// Removes a card from the deck bitmask.
    pub fn remove_card(&mut self, card: Card)
        requires
            card.fields_readable(),
        ensures
            final(self)@ == old(self)@.remove(card.index_of()),
    {
        proof {
            use_type_invariant(&*self);
        }
        let k = card.index();
        proof {
            lemma_bounds(self.0, 0, k as u64);
            assert forall|i: int| 0 <= i < 52 implies bit_of(self.0 & !(1u64 << k as u64), i) == (
            bit_of(self.0, i) && i != k) by {
                lemma_bit_or_one(self.0, k as u64, i as u64);
            }
            assert(bits_below(self.0 & !(1u64 << k as u64), 52) =~= bits_below(self.0, 52).remove(
                k as int,
            ));
        }
        self.0 = self.0 & !(1u64 << k);
    }

    /// Checks whether the deck bitmask contains the specified card.
    pub fn has_card(self, card: Card) -> (b: bool)
        requires
            card.fields_readable(),
        ensures
            b == self@.contains(card.index_of()),
    {
        let k = card.index();
        proof {
            lemma_bit_binops(self.0, 1u64 << k as u64, k as u64);
            lemma_bit_or_one(0, k as u64, k as u64);
            lemma_bit_two(self.0, k as u64);
        }
        (self.0 & (1u64 << k)) != 0
    }

    /// Alias for `has_card`.
    pub fn contains(self, card: Card) -> (b: bool)
        requires
            card.fields_readable(),
        ensures
            b == self@.contains(card.index_of()),
    {
        self.has_card(card)
    }

    /// Returns a new bitmask with dead/blocked cards removed from this set (`self & !dead`).
    pub fn dead_cards(self, dead: DeckBitmask) -> (d: DeckBitmask)
        ensures
            d@ == self@.difference(dead@),
    {
        proof {
            use_type_invariant(self);
            use_type_invariant(dead);
            lemma_bounds(self.0, dead.0, 0);
            assert forall|i: int| 0 <= i < 52 implies bit_of(self.0 & !dead.0, i) == (bit_of(
                self.0,
                i,
            ) && !bit_of(dead.0, i)) by {
                lemma_bit_binops(self.0, dead.0, i as u64);
            }
            assert(bits_below(self.0 & !dead.0, 52) =~= bits_below(self.0, 52).difference(
                bits_below(dead.0, 52),
            ));
        }
        DeckBitmask(self.0 & !dead.0)
    }

    /// Returns the number of cards currently present in the bitmask.
    pub fn count(self) -> (n: u32)
        ensures
            n == self@.len(),
            n <= 52,
    {
        let mut n: u32 = 0;
        let mut i: u32 = 0;
        while i < 52
            invariant
                i <= 52,
                n == popcount_below(self.0, i as nat),
                n <= i,
            decreases 52 - i,
        {
            if (self.0 >> i) & 1 == 1 {
                n = n + 1;
            }
            i = i + 1;
        }
        proof {
            lemma_bits_below_len(self.0, 52);
        }
        n
    }

    /// Checks whether the bitmask is empty (0 cards).
    pub fn is_empty(self) -> (b: bool)
        ensures
            b <==> self@ == Set::<int>::empty(),
    {
        proof {
            use_type_invariant(self);
            lemma_nonzero(self.0);
        }
        self.0 == 0
    }

    /// Creates an iterator over the cards of the bitmask, in increasing index order.
    pub fn iter(self) -> (it: DeckIterator)
        ensures
            it@ == self@,
    {
        proof {
            use_type_invariant(self);
        }
        DeckIterator { mask: self.0 }
    }

    /// The cards of the bitmask in increasing index order.
    pub fn cards(self) -> (v: Vec<Card>)
        ensures
            v@.len() == self@.len(),
            all_valid(v@),
            indices_of(v@) == self@,
            forall|a: int, b: int| 0 <= a < b < v@.len() ==> v@[a].index_of() < v@[b].index_of(),
    {
        let mut it = self.iter();
        let mut v: Vec<Card> = Vec::new();
        proof {
            self.lemma_wf();
            assert(indices_of(v@) =~= Set::<int>::empty());
        }
        loop
            invariant
                all_valid(v@),
                it@.finite(),
                it@.disjoint(indices_of(v@)),
                it@ + indices_of(v@) == self@,
                self@.finite(),
                v@.len() + it@.len() == self@.len(),
                forall|a: int, b: int| 0 <= a < b < v@.len() ==> v@[a].index_of() < v@[b].index_of(),
                forall|a: int, j: int| 0 <= a < v@.len() && it@.contains(j) ==> v@[a].index_of() < j,
            ensures
                all_valid(v@),
                indices_of(v@) == self@,
                v@.len() == self@.len(),
                forall|a: int, b: int| 0 <= a < b < v@.len() ==> v@[a].index_of() < v@[b].index_of(),
            decreases it@.len(),
        {
            let ghost before = it@;
            match it.next() {
                Some(c) => {
                    proof {
                        assert(indices_of(v@.push(c)) =~= indices_of(v@).insert(c.index_of())) by {
                            assert forall|i: int| indices_of(v@).insert(c.index_of()).contains(i)
                                implies indices_of(v@.push(c)).contains(i) by {
                                if i == c.index_of() {
                                    assert(v@.push(c)[v@.len() as int] == c);
                                } else {
                                    let j = choose|j: int| 0 <= j < v@.len() && v@[j].index_of() == i;
                                    assert(v@.push(c)[j] == v@[j]);
                                }
                            }
                        }
                        assert(it@ + indices_of(v@.push(c)) =~= before + indices_of(v@));
                    }
                    v.push(c);
                },
                None => {
                    proof {
                        assert(indices_of(v@) =~= self@);
                    }
                    break;
                },
            }
        }
        v
    }

    /// Constructs a DeckBitmask from a slice of cards.
    pub fn from_cards(cards: &[Card]) -> (d: Self)
        requires
            all_valid(cards@),
        ensures
            d@ == indices_of(cards@),
    {
        let mut deck = Self::empty();
        let n = cards.len();
        let mut i: usize = 0;
        while i < n
            invariant
                n == cards@.len(),
                i <= n,
                all_valid(cards@),
                deck@ == indices_of(cards@.subrange(0, i as int)),
            decreases n - i,
        {
            let c = cards[i];
            deck.add_card(c);
            proof {
                assert(indices_of(cards@.subrange(0, i as int + 1)) =~= indices_of(
                    cards@.subrange(0, i as int),
                ).insert(c.index_of())) by {
                    let pre = cards@.subrange(0, i as int);
                    let nxt = cards@.subrange(0, i as int + 1);
                    assert forall|k: int| indices_of(nxt).contains(k) implies indices_of(
                        pre,
                    ).insert(c.index_of()).contains(k) by {
                        let j = choose|j: int| 0 <= j < nxt.len() && nxt[j].index_of() == k;
                        if j < i {
                            assert(pre[j] == nxt[j]);
                        }
                    }
                    assert forall|k: int| indices_of(pre).insert(c.index_of()).contains(k) implies indices_of(
                        nxt,
                    ).contains(k) by {
                        if k == c.index_of() {
                            assert(nxt[i as int] == c);
                        } else {
                            let j = choose|j: int| 0 <= j < pre.len() && pre[j].index_of() == k;
                            assert(nxt[j] == pre[j]);
                        }
                    }
                }
            }
            i = i + 1;
        }
        proof {
            assert(cards@.subrange(0, n as int) =~= cards@);
        }
        deck
    }

    /// Parses a sequence of concatenated 2-character card strings (e.g. "AhKsQd"), after
    /// trimming surrounding whitespace; each pair of bytes is read as rank then suit.
    pub fn from_str_multi(s: &str) -> (r: Result<Self, CardParseError>)
        ensures
            match (r, parse_multi_bytes(vstd::utf8::encode_utf8(crate::text::trim_seq(s@)))) {
                (Ok(d), Ok(set)) => d@ == set,
                (Err(e), Err(e2)) => e == e2,
                _ => false,
            },
    {
        let trimmed = trim_str(s);
        let bytes = trimmed.as_bytes();
        let n = bytes.len();
        if n == 0 {
            return Ok(Self::empty());
        }
        if n % 2 != 0 {
            return Err(CardParseError::InvalidLength(n));
        }
        let ghost b = bytes@;
        assert(b == vstd::utf8::encode_utf8(crate::text::trim_seq(s@)));
        let mut deck = Self::empty();
        proof {
            assert(b.skip(0) =~= b);
            match parse_card_pairs(b) {
                Err(e) => {},
                Ok(rest) => {
                    assert(rest + deck@ =~= rest);
                },
            }
        }
        let mut i: usize = 0;
        while i < n
            invariant
                n == b.len(),
                bytes@ == b,
                b == vstd::utf8::encode_utf8(crate::text::trim_seq(s@)),
                n % 2 == 0,
                n != 0,
                i <= n,
                i % 2 == 0,
                parse_card_pairs(b) == match parse_card_pairs(b.skip(i as int)) {
                    Err(e) => Err(e),
                    Ok(rest) => Ok(rest + deck@),
                },
            decreases n - i,
        {
            let rank_ch = bytes[i] as char;
            let suit_ch = bytes[i + 1] as char;
            let card = match Card::from_chars(rank_ch, suit_ch) {
                Ok(c) => c,
                Err(e) => {
                    proof {
                        assert(b.skip(i as int)[0] == b[i as int]);
                        assert(b.skip(i as int)[1] == b[i + 1]);
                        assert(parse_card_pairs(b.skip(i as int)) == Err::<Set<int>, CardParseError>(e));
                        assert(parse_card_pairs(b) == Err::<Set<int>, CardParseError>(e));
                        assert(parse_multi_bytes(b) == Err::<Set<int>, CardParseError>(e));
                    }
                    return Err(e);
                },
            };
            proof {
                let tail = b.skip(i as int);
                assert(tail[0] == b[i as int]);
                assert(tail[1] == b[i + 1]);
                assert(tail.skip(2) =~= b.skip(i + 2));
            }
            let ghost old_deck = deck@;
            deck.add_card(card);
            proof {
                match parse_card_pairs(b.skip(i + 2)) {
                    Err(e) => {},
                    Ok(rest) => {
                        assert(rest.insert(card.index_of()) + old_deck =~= rest + old_deck.insert(
                            card.index_of(),
                        ));
                    },
                }
            }
            i = i + 2;
        }
        proof {
            assert(b.skip(n as int).len() == 0);
            assert(Set::<int>::empty() + deck@ =~= deck@);
        }
        Ok(deck)
    }

    /// The concatenated two-character names of the cards, in increasing index order.
    pub fn to_string(&self) -> (s: String)
        ensures
            s@ == names_from(self.raw_bits(), 0),
    {
        let mut s = String::new();
        let mut i: usize = 52;
        let mut acc: Vec<char> = Vec::new();
        let ghost x = self.0;
        // Build the names from the highest index down so that each step prepends.
        while i > 0
            invariant
                i <= 52,
                x == self.0,
                acc@ == names_from(x, i as int),
            decreases i,
        {
            i = i - 1;
            if (self.0 >> i as u64) & 1 == 1 {
                let c = Card::from_index(i);
                match c {
                    Ok(card) => {
                        let mut nxt: Vec<char> = Vec::new();
                        nxt.push(card.rank().as_char());
                        nxt.push(card.suit().as_char());
                        let mut j: usize = 0;
                        while j < acc.len()
                            invariant
                                j <= acc@.len(),
                                nxt@ == seq![rank_char_of((i / 4) as u32), suit_char_of((i % 4) as u32)]
                                    + acc@.subrange(0, j as int),
                            decreases acc@.len() - j,
                        {
                            nxt.push(acc[j]);
                            proof {
                                assert(acc@.subrange(0, j as int + 1) =~= acc@.subrange(0, j as int).push(acc@[j as int]));
                            }
                            j = j + 1;
                        }
                        proof {
                            assert(acc@.subrange(0, acc@.len() as int) =~= acc@);
                        }
                        acc = nxt;
                    },
                    Err(_) => {},
                }
            }
        }
        crate::text::push_chars(&mut s, acc.as_slice());
        proof {
            assert(Seq::<char>::empty() + acc@ =~= acc@);
        }
        s
    }
}

proof fn lemma_bit_two(x: u64, k: u64)
    by (bit_vector)
    requires
        k < 64,
    ensures
        (x & (1u64 << k)) != 0 <==> (x >> k) & 1u64 == 1u64,
{
}

impl Default for DeckBitmask {
    fn default() -> (d: Self)
        ensures
            d@ == Set::<int>::empty(),
    {
        DeckBitmask::empty()
    }
}

impl vstd::std_specs::ops::BitOrSpecImpl for DeckBitmask {
    open spec fn obeys_bitor_spec() -> bool {
        true
    }

    open spec fn bitor_req(self, rhs: Self) -> bool {
        true
    }

    closed spec fn bitor_spec(self, rhs: Self) -> Self {
        DeckBitmask(self.0 | rhs.0)
    }
}

impl vstd::std_specs::ops::BitAndSpecImpl for DeckBitmask {
    open spec fn obeys_bitand_spec() -> bool {
        true
    }

    open spec fn bitand_req(self, rhs: Self) -> bool {
        true
    }

    closed spec fn bitand_spec(self, rhs: Self) -> Self {
        DeckBitmask(self.0 & rhs.0)
    }
}

impl vstd::std_specs::ops::BitXorSpecImpl for DeckBitmask {
    open spec fn obeys_bitxor_spec() -> bool {
        true
    }

    open spec fn bitxor_req(self, rhs: Self) -> bool {
        true
    }

    closed spec fn bitxor_spec(self, rhs: Self) -> Self {
        DeckBitmask(self.0 ^ rhs.0)
    }
}

impl vstd::std_specs::ops::NotSpecImpl for DeckBitmask {
    open spec fn obeys_not_spec() -> bool {
        true
    }

    open spec fn not_req(self) -> bool {
        true
    }

    closed spec fn not_spec(self) -> Self {
        DeckBitmask((!self.0) & FULL_DECK_MASK)
    }
}

impl vstd::std_specs::ops::SubSpecImpl for DeckBitmask {
    open spec fn obeys_sub_spec() -> bool {
        true
    }

    open spec fn sub_req(self, rhs: Self) -> bool {
        true
    }

    closed spec fn sub_spec(self, rhs: Self) -> Self {
        DeckBitmask(self.0 & !rhs.0)
    }
}

impl core::ops::BitOr for DeckBitmask {
    type Output = Self;

    fn bitor(self, rhs: Self) -> (d: Self)
        ensures
            d@ == self@.union(rhs@),
    {
        proof {
            use_type_invariant(self);
            use_type_invariant(rhs);
            lemma_bounds(self.0, rhs.0, 0);
            assert forall|i: int| 0 <= i < 52 implies bit_of(self.0 | rhs.0, i) == (bit_of(self.0, i)
                || bit_of(rhs.0, i)) by {
                lemma_bit_binops(self.0, rhs.0, i as u64);
            }
            assert(bits_below(self.0 | rhs.0, 52) =~= bits_below(self.0, 52).union(
                bits_below(rhs.0, 52),
            ));
        }
        DeckBitmask(self.0 | rhs.0)
    }
}

impl core::ops::BitAnd for DeckBitmask {
    type Output = Self;

    fn bitand(self, rhs: Self) -> (d: Self)
        ensures
            d@ == self@.intersect(rhs@),
    {
        proof {
            use_type_invariant(self);
            use_type_invariant(rhs);
            lemma_bounds(self.0, rhs.0, 0);
            assert forall|i: int| 0 <= i < 52 implies bit_of(self.0 & rhs.0, i) == (bit_of(self.0, i)
                && bit_of(rhs.0, i)) by {
                lemma_bit_binops(self.0, rhs.0, i as u64);
            }
            assert(bits_below(self.0 & rhs.0, 52) =~= bits_below(self.0, 52).intersect(
                bits_below(rhs.0, 52),
            ));
        }
        DeckBitmask(self.0 & rhs.0)
    }
}

impl core::ops::BitXor for DeckBitmask {
    type Output = Self;

    fn bitxor(self, rhs: Self) -> (d: Self)
        ensures
            d@ == self@.difference(rhs@).union(rhs@.difference(self@)),
    {
        proof {
            use_type_invariant(self);
            use_type_invariant(rhs);
            lemma_bounds(self.0, rhs.0, 0);
            assert forall|i: int| 0 <= i < 52 implies bit_of(self.0 ^ rhs.0, i) == (bit_of(self.0, i)
                != bit_of(rhs.0, i)) by {
                lemma_bit_binops(self.0, rhs.0, i as u64);
            }
            assert(bits_below(self.0 ^ rhs.0, 52) =~= bits_below(self.0, 52).difference(
                bits_below(rhs.0, 52),
            ).union(bits_below(rhs.0, 52).difference(bits_below(self.0, 52))));
        }
        DeckBitmask(self.0 ^ rhs.0)
    }
}

impl core::ops::Not for DeckBitmask {
    type Output = Self;

    fn not(self) -> (d: Self)
        ensures
            d@ == index_range(52).difference(self@),
    {
        proof {
            use_type_invariant(self);
            lemma_bounds(self.0, 0, 0);
            assert forall|i: int| 0 <= i < 52 implies bit_of(!self.0 & FULL_DECK_MASK, i) == !bit_of(
                self.0,
                i,
            ) by {
                lemma_bit_binops(self.0, 0, i as u64);
            }
            assert(bits_below(!self.0 & FULL_DECK_MASK, 52) =~= index_range(52).difference(
                bits_below(self.0, 52),
            ));
        }
        DeckBitmask((!self.0) & FULL_DECK_MASK)
    }
}

impl core::ops::Sub for DeckBitmask {
    type Output = Self;

    fn sub(self, rhs: Self) -> (d: Self)
        ensures
            d@ == self@.difference(rhs@),
    {
        proof {
            use_type_invariant(self);
            use_type_invariant(rhs);
            lemma_bounds(self.0, rhs.0, 0);
            assert forall|i: int| 0 <= i < 52 implies bit_of(self.0 & !rhs.0, i) == (bit_of(self.0, i)
                && !bit_of(rhs.0, i)) by {
                lemma_bit_binops(self.0, rhs.0, i as u64);
            }
            assert(bits_below(self.0 & !rhs.0, 52) =~= bits_below(self.0, 52).difference(
                bits_below(rhs.0, 52),
            ));
        }
        DeckBitmask(self.0 & !rhs.0)
    }
}

impl core::ops::BitOrAssign for DeckBitmask {
    fn bitor_assign(&mut self, rhs: Self)
        ensures
            final(self)@ == old(self)@.union(rhs@),
    {
        *self = *self | rhs;
    }
}

impl core::ops::BitAndAssign for DeckBitmask {
    fn bitand_assign(&mut self, rhs: Self)
        ensures
            final(self)@ == old(self)@.intersect(rhs@),
    {
        *self = *self & rhs;
    }
}

impl core::ops::BitXorAssign for DeckBitmask {
    fn bitxor_assign(&mut self, rhs: Self)
        ensures
            final(self)@ == old(self)@.difference(rhs@).union(rhs@.difference(old(self)@)),
    {
        *self = *self ^ rhs;
    }
}

impl core::ops::SubAssign for DeckBitmask {
    fn sub_assign(&mut self, rhs: Self)
        ensures
            final(self)@ == old(self)@.difference(rhs@),
    {
        *self = self.dead_cards(rhs);
    }
}

/// Iterator yielding the cards of a `DeckBitmask` in increasing index order.
#[derive(Copy, Clone, Debug)]
pub struct DeckIterator {
    mask: u64,
}

impl DeckIterator {
    #[verifier::type_invariant]
    closed spec fn inv(self) -> bool {
        self.mask <= FULL_DECK_MASK
    }

    /// The deck indices of the cards not yet yielded.
    pub closed spec fn remaining_view(self) -> Set<int> {
        bits_below(self.mask, 52)
    }

    /// The set of remaining cards is finite.
    pub proof fn lemma_finite(self)
        ensures
            self.remaining_view().finite(),
    {
        lemma_bits_below_len(self.mask, 52);
    }

    /// Yields the remaining card of lowest index, or `None` when all were yielded.
    pub fn next(&mut self) -> (r: Option<Card>)
        ensures
            old(self)@ == Set::<int>::empty() ==> r is None && final(self)@ == old(self)@,
            old(self)@ != Set::<int>::empty() ==> (r matches Some(c) && c.valid() && old(self)@.contains(
                c.index_of(),
            ) && final(self)@ == old(self)@.remove(c.index_of()) && (forall|j: int|
                old(self)@.contains(j) ==> c.index_of() <= j)),
    {
        proof {
            use_type_invariant(&*self);
            lemma_nonzero(self.mask);
        }
        if self.mask == 0 {
            None
        } else {
            let trailing = self.mask.trailing_zeros() as usize;
            proof {
                let x = self.mask;
                axiom_u64_trailing_zeros(x);
                let t = trailing as u64;
                lemma_high_bit_bound(x, t);
                lemma_bounds(x, 0, t);
                assert forall|i: int| 0 <= i < 52 implies bit_of(x & !(1u64 << t), i) == (bit_of(x, i)
                    && i != t) by {
                    lemma_bit_or_one(x, t, i as u64);
                }
                assert(bits_below(x & !(1u64 << t), 52) =~= bits_below(x, 52).remove(t as int));
                assert forall|j: int| bits_below(x, 52).contains(j) implies t <= j by {
                    if j < t {
                        assert((x >> (j as u64)) & 1u64 == 0u64);
                    }
                }
            }
            self.mask = self.mask & !(1u64 << trailing);
            match Card::from_index(trailing) {
                Ok(c) => Some(c),
                Err(_) => None,
            }
        }
    }

    /// Number of cards not yet yielded, as a `(lower, upper)` bound pair.
    pub fn size_hint(&self) -> (r: (usize, Option<usize>))
        ensures
            r.0 == self@.len(),
            r.1 == Some(r.0),
    {
        let count = DeckBitmask::from_u64(self.mask).count() as usize;
        proof {
            use_type_invariant(self);
            assert forall|i: int| 0 <= i < 52 implies bit_of(self.mask & FULL_DECK_MASK, i) == bit_of(
                self.mask,
                i,
            ) by {
                lemma_bit_binops(self.mask, self.mask, i as u64);
            }
        }
        (count, Some(count))
    }
}

impl View for DeckIterator {
    type V = Set<int>;

    open spec fn view(&self) -> Set<int> {
        self.remaining_view()
    }
}


/// `v` is what successive calls of `DeckIterator::next` yield from an iterator whose
/// remaining cards are `s`, up to the `None` that ends the iteration: each step yields a
/// valid card of least index among those left and removes it.
pub open spec fn drained_in_order(s: Set<int>, v: Seq<Card>) -> bool
    decreases v.len(),
{
    if v.len() == 0 {
        s == Set::<int>::empty()
    } else {
        &&& v[0].valid()
        &&& s.contains(v[0].index_of())
        &&& forall|j: int| s.contains(j) ==> v[0].index_of() <= j
        &&& drained_in_order(s.remove(v[0].index_of()), v.drop_first())
    }
}

proof fn lemma_drained_in_order(s: Set<int>, v: Seq<Card>)
    requires
        s.finite(),
        drained_in_order(s, v),
    ensures
        v.len() == s.len(),
        indices_of(v) == s,
        all_valid(v),
        forall|a: int, b: int| 0 <= a < b < v.len() ==> v[a].index_of() < v[b].index_of(),
    decreases v.len(),
{
    if v.len() == 0 {
        assert(indices_of(v) =~= s);
    } else {
        let x = v[0].index_of();
        let rest = v.drop_first();
        lemma_drained_in_order(s.remove(x), rest);
        assert(indices_of(v) =~= s) by {
            assert forall|i: int| s.contains(i) implies indices_of(v).contains(i) by {
                if i == x {
                    assert(v[0].index_of() == i);
                } else {
                    assert(indices_of(rest).contains(i));
                    let j = choose|j: int| 0 <= j < rest.len() && rest[j].index_of() == i;
                    assert(v[j + 1] == rest[j]);
                }
            }
            assert forall|i: int| indices_of(v).contains(i) implies s.contains(i) by {
                let j = choose|j: int| 0 <= j < v.len() && v[j].index_of() == i;
                if j > 0 {
                    assert(rest[j - 1] == v[j]);
                    assert(indices_of(rest).contains(i));
                }
            }
        }
        assert forall|j: int| 0 <= j < v.len() implies (#[trigger] v[j]).valid() by {
            if j > 0 {
                assert(rest[j - 1] == v[j]);
            }
        }
        assert forall|a: int, b: int| 0 <= a < b < v.len() implies v[a].index_of() < v[b].index_of() by {
            assert(v[b] == rest[b - 1]);
            assert(indices_of(rest).contains(rest[b - 1].index_of()));
            if a > 0 {
                assert(v[a] == rest[a - 1]);
            }
        }
    }
}

/// Iterating a deck yields each of its cards exactly once, in strictly increasing index
/// order, and as many cards as the deck holds (`count()`, and the iterator's `size_hint`,
/// both give `d@.len()`).
pub proof fn lemma_deck_iteration(d: DeckBitmask, v: Seq<Card>)
    requires
        drained_in_order(d@, v),
    ensures
        v.len() == d@.len(),
        indices_of(v) == d@,
        all_valid(v),
        forall|a: int, b: int| 0 <= a < b < v.len() ==> v[a].index_of() < v[b].index_of(),
        forall|c: Card| c.valid() ==> (d@.contains(c.index_of()) <==> exists|j: int| 0 <= j < v.len() && #[trigger] v[j] == c),
{
    d.lemma_wf();
    lemma_drained_in_order(d@, v);
    assert forall|c: Card| c.valid() implies (d@.contains(c.index_of()) <==> exists|j: int| 0 <= j < v.len() && #[trigger] v[j] == c) by {
        if d@.contains(c.index_of()) {
            let j = choose|j: int| 0 <= j < v.len() && v[j].index_of() == c.index_of();
            assert(v[j].valid());
            Card::lemma_index_injective(v[j], c);
            assert(v[j] == c);
        }
    }
}


/// The card named by the `k`-th two-byte chunk of `b`, as rank and suit indices, or the error.
pub open spec fn chunk_card(b: Seq<u8>, k: int) -> Result<(u32, u32), CardParseError> {
    parse_card_chars(b[2 * k] as char, b[2 * k + 1] as char)
}

/// The deck index of the card named by the `k`-th chunk of `b` (-1 when it names none).
pub open spec fn chunk_index(b: Seq<u8>, k: int) -> int {
    match chunk_card(b, k) {
        Ok((r, s)) => r * 4 + s,
        Err(_) => -1,
    }
}

#[verifier::spinoff_prover]
proof fn lemma_card_pairs(b: Seq<u8>)
    requires
        b.len() % 2 == 0,
    ensures
        parse_card_pairs(b) is Ok <==> forall|k: int| 0 <= k < b.len() / 2 ==> #[trigger] chunk_card(b, k) is Ok,
        parse_card_pairs(b) matches Ok(set) ==> forall|i: int|
            set.contains(i) <==> exists|k: int| 0 <= k < b.len() / 2 && #[trigger] chunk_index(b, k) == i,
        parse_card_pairs(b) matches Err(e) ==> exists|k: int|
            0 <= k < b.len() / 2 && #[trigger] chunk_card(b, k) == Err::<(u32, u32), CardParseError>(e)
                && forall|j: int| 0 <= j < k ==> #[trigger] chunk_card(b, j) is Ok,
    decreases b.len(),
{
    if b.len() >= 2 {
        let t = b.skip(2);
        lemma_card_pairs(t);
        assert forall|k: int| 0 <= k < t.len() / 2 implies #[trigger] chunk_card(t, k) == chunk_card(b, k + 1) by {
            assert(t[2 * k] == b[2 * (k + 1)]);
            assert(t[2 * k + 1] == b[2 * (k + 1) + 1]);
        }
        assert forall|k: int| 0 <= k < t.len() / 2 implies #[trigger] chunk_index(t, k) == chunk_index(b, k + 1) by {
            assert(chunk_card(t, k) == chunk_card(b, k + 1));
        }
        match chunk_card(b, 0) {
            Err(e) => {
                assert(chunk_card(b, 0) == Err::<(u32, u32), CardParseError>(e));
            },
            Ok((r, s)) => {
                if forall|k: int| 0 <= k < b.len() / 2 ==> #[trigger] chunk_card(b, k) is Ok {
                    assert forall|k: int| 0 <= k < t.len() / 2 implies #[trigger] chunk_card(t, k) is Ok by {
                        assert(chunk_card(b, k + 1) is Ok);
                    }
                }
                if forall|k: int| 0 <= k < t.len() / 2 ==> #[trigger] chunk_card(t, k) is Ok {
                    assert forall|k: int| 0 <= k < b.len() / 2 implies #[trigger] chunk_card(b, k) is Ok by {
                        if k > 0 {
                            assert(chunk_card(t, k - 1) is Ok);
                        }
                    }
                }
                match parse_card_pairs(t) {
                    Ok(rest) => {
                        let set = rest.insert(r * 4 + s);
                        assert forall|i: int| set.contains(i) implies exists|k: int|
                            0 <= k < b.len() / 2 && #[trigger] chunk_index(b, k) == i by {
                            if i == r * 4 + s {
                                assert(chunk_index(b, 0) == i);
                            } else {
                                let k = choose|k: int| 0 <= k < t.len() / 2 && #[trigger] chunk_index(t, k) == i;
                                assert(chunk_index(b, k + 1) == i);
                            }
                        }
                        assert forall|i: int| (exists|k: int|
                            0 <= k < b.len() / 2 && #[trigger] chunk_index(b, k) == i) implies set.contains(i) by {
                            let k = choose|k: int| 0 <= k < b.len() / 2 && #[trigger] chunk_index(b, k) == i;
                            if k > 0 {
                                assert(chunk_index(t, k - 1) == i);
                            }
                        }
                    },
                    Err(e) => {
                        let k = choose|k: int|
                            0 <= k < t.len() / 2 && #[trigger] chunk_card(t, k) == Err::<(u32, u32), CardParseError>(e)
                                && forall|j: int| 0 <= j < k ==> #[trigger] chunk_card(t, j) is Ok;
                        assert(chunk_card(b, k + 1) == Err::<(u32, u32), CardParseError>(e));
                        assert forall|j: int| 0 <= j < k + 1 implies #[trigger] chunk_card(b, j) is Ok by {
                            if j > 0 {
                                assert(chunk_card(t, j - 1) is Ok);
                            }
                        }
                    },
                }
            },
        }
    }
}

/// What `from_str_multi` gives, in terms of the trimmed input's bytes `b`: empty input
/// gives the empty deck; an odd number of bytes gives `InvalidLength` with that number;
/// otherwise the result is `Ok` exactly when every two-byte chunk names a card, the deck
/// then holding exactly the cards named (repeats collapse), and otherwise the error of
/// the first chunk that names no card.
pub proof fn lemma_multi_parse(b: Seq<u8>)
    ensures
        b.len() == 0 ==> parse_multi_bytes(b) == Ok::<Set<int>, CardParseError>(Set::empty()),
        b.len() % 2 == 1 ==> parse_multi_bytes(b) == Err::<Set<int>, CardParseError>(
            CardParseError::InvalidLength(b.len() as usize),
        ),
        b.len() % 2 == 0 ==> (parse_multi_bytes(b) is Ok <==> forall|k: int|
            0 <= k < b.len() / 2 ==> #[trigger] chunk_card(b, k) is Ok),
        b.len() % 2 == 0 ==> (parse_multi_bytes(b) matches Ok(set) ==> forall|i: int|
            set.contains(i) <==> exists|k: int| 0 <= k < b.len() / 2 && #[trigger] chunk_index(b, k) == i),
        b.len() % 2 == 0 ==> (parse_multi_bytes(b) matches Err(e) ==> exists|k: int|
            0 <= k < b.len() / 2 && #[trigger] chunk_card(b, k) == Err::<(u32, u32), CardParseError>(e)
                && forall|j: int| 0 <= j < k ==> #[trigger] chunk_card(b, j) is Ok),
{
    if b.len() % 2 == 0 {
        lemma_card_pairs(b);
    }
}

} // verus!


