//! 32-bit packed card encoding (Cactus-Kev layout), ranks and suits.
use vstd::prelude::*;
use crate::text::push_char;
use vstd::string::StringSliceAdditionalSpecFns;

verus! {

/// Primes associated with each rank (2 to Ace) for Cactus-Kev evaluation.
pub const RANK_PRIMES: [u32; 13] = [2, 3, 5, 7, 11, 13, 17, 19, 23, 29, 31, 37, 41];

/// The prime associated with the rank of index `r` (Deuce = 0, ..., Ace = 12).
pub open spec fn prime_of_rank(r: u32) -> u32 {
    if r == 0 { 2 }
    else if r == 1 { 3 }
    else if r == 2 { 5 }
    else if r == 3 { 7 }
    else if r == 4 { 11 }
    else if r == 5 { 13 }
    else if r == 6 { 17 }
    else if r == 7 { 19 }
    else if r == 8 { 23 }
    else if r == 9 { 29 }
    else if r == 10 { 31 }
    else if r == 11 { 37 }
    else { 41 }
}

/// The character naming the rank of index `r`.
pub open spec fn rank_char_of(r: u32) -> char {
    if r == 0 { '2' }
    else if r == 1 { '3' }
    else if r == 2 { '4' }
    else if r == 3 { '5' }
    else if r == 4 { '6' }
    else if r == 5 { '7' }
    else if r == 6 { '8' }
    else if r == 7 { '9' }
    else if r == 8 { 'T' }
    else if r == 9 { 'J' }
    else if r == 10 { 'Q' }
    else if r == 11 { 'K' }
    else { 'A' }
}

/// The rank index that a character names, if any (face letters in either case).
pub open spec fn rank_of_char(c: char) -> Option<u32> {
    if c == '2' { Some(0u32) }
    else if c == '3' { Some(1u32) }
    else if c == '4' { Some(2u32) }
    else if c == '5' { Some(3u32) }
    else if c == '6' { Some(4u32) }
    else if c == '7' { Some(5u32) }
    else if c == '8' { Some(6u32) }
    else if c == '9' { Some(7u32) }
    else if c == 'T' || c == 't' { Some(8u32) }
    else if c == 'J' || c == 'j' { Some(9u32) }
    else if c == 'Q' || c == 'q' { Some(10u32) }
    else if c == 'K' || c == 'k' { Some(11u32) }
    else if c == 'A' || c == 'a' { Some(12u32) }
    else { None }
}

/// The one-hot suit mask of the suit of index `s` (Spades = 0, ..., Clubs = 3).
pub open spec fn suit_mask_of(s: u32) -> u32 {
    if s == 0 { 1 } else if s == 1 { 2 } else if s == 2 { 4 } else { 8 }
}

/// The character naming the suit of index `s`.
pub open spec fn suit_char_of(s: u32) -> char {
    if s == 0 { 's' } else if s == 1 { 'h' } else if s == 2 { 'd' } else { 'c' }
}

/// The suit index that a character names, if any (either case).
pub open spec fn suit_of_char(c: char) -> Option<u32> {
    if c == 's' || c == 'S' { Some(0u32) }
    else if c == 'h' || c == 'H' { Some(1u32) }
    else if c == 'd' || c == 'D' { Some(2u32) }
    else if c == 'c' || c == 'C' { Some(3u32) }
    else { None }
}

/// The packed 32-bit encoding of the card of rank index `r` and suit index `s`.
pub open spec fn encode(r: u32, s: u32) -> u32 {
    (1u32 << ((16 + r) as u32)) | (suit_mask_of(s) << 12u32) | (r << 8u32) | prime_of_rank(r)
}

/// Represents card rank from Deuce (0) through Ace (12).
#[derive(Debug, Copy, Clone, PartialEq, Eq, PartialOrd, Ord, Hash, Structural)]
pub enum Rank {
    Two,
    Three,
    Four,
    Five,
    Six,
    Seven,
    Eight,
    Nine,
    Ten,
    Jack,
    Queen,
    King,
    Ace,
}

/// The rank of index `r`, for `r < 13`.
pub open spec fn rank_from_index(r: u32) -> Rank {
    if r == 0 { Rank::Two }
    else if r == 1 { Rank::Three }
    else if r == 2 { Rank::Four }
    else if r == 3 { Rank::Five }
    else if r == 4 { Rank::Six }
    else if r == 5 { Rank::Seven }
    else if r == 6 { Rank::Eight }
    else if r == 7 { Rank::Nine }
    else if r == 8 { Rank::Ten }
    else if r == 9 { Rank::Jack }
    else if r == 10 { Rank::Queen }
    else if r == 11 { Rank::King }
    else { Rank::Ace }
}

impl Rank {
    /// All thirteen ranks from Deuce to Ace.
    pub const ALL: [Rank; 13] = [
        Rank::Two,
        Rank::Three,
        Rank::Four,
        Rank::Five,
        Rank::Six,
        Rank::Seven,
        Rank::Eight,
        Rank::Nine,
        Rank::Ten,
        Rank::Jack,
        Rank::Queen,
        Rank::King,
        Rank::Ace,
    ];

    /// The index of this rank: Deuce = 0, ..., Ace = 12.
    pub open spec fn idx(self) -> u32 {
        match self {
            Rank::Two => 0,
            Rank::Three => 1,
            Rank::Four => 2,
            Rank::Five => 3,
            Rank::Six => 4,
            Rank::Seven => 5,
            Rank::Eight => 6,
            Rank::Nine => 7,
            Rank::Ten => 8,
            Rank::Jack => 9,
            Rank::Queen => 10,
            Rank::King => 11,
            Rank::Ace => 12,
        }
    }

    /// The Cactus-Kev prime of this rank.
    pub fn prime(self) -> (p: u32)
        ensures
            p == prime_of_rank(self.idx()),
            2 <= p <= 41,
    {
        match self {
            Rank::Two => 2,
            Rank::Three => 3,
            Rank::Four => 5,
            Rank::Five => 7,
            Rank::Six => 11,
            Rank::Seven => 13,
            Rank::Eight => 17,
            Rank::Nine => 19,
            Rank::Ten => 23,
            Rank::Jack => 29,
            Rank::Queen => 31,
            Rank::King => 37,
            Rank::Ace => 41,
        }
    }

    /// The index of this rank as a byte.
    pub fn as_u8(self) -> (v: u8)
        ensures
            v as u32 == self.idx(),
            v < 13,
    {
        match self {
            Rank::Two => 0,
            Rank::Three => 1,
            Rank::Four => 2,
            Rank::Five => 3,
            Rank::Six => 4,
            Rank::Seven => 5,
            Rank::Eight => 6,
            Rank::Nine => 7,
            Rank::Ten => 8,
            Rank::Jack => 9,
            Rank::Queen => 10,
            Rank::King => 11,
            Rank::Ace => 12,
        }
    }

    /// The rank of index `val`, or `InvalidRankValue(val)` when `val >= 13`.
    pub fn from_u8(val: u8) -> (r: Result<Self, CardParseError>)
        ensures
            val < 13 ==> r == Ok::<Rank, CardParseError>(rank_from_index(val as u32)),
            val >= 13 ==> r == Err::<Rank, CardParseError>(CardParseError::InvalidRankValue(val)),
    {
        match val {
            0 => Ok(Rank::Two),
            1 => Ok(Rank::Three),
            2 => Ok(Rank::Four),
            3 => Ok(Rank::Five),
            4 => Ok(Rank::Six),
            5 => Ok(Rank::Seven),
            6 => Ok(Rank::Eight),
            7 => Ok(Rank::Nine),
            8 => Ok(Rank::Ten),
            9 => Ok(Rank::Jack),
            10 => Ok(Rank::Queen),
            11 => Ok(Rank::King),
            12 => Ok(Rank::Ace),
            _ => Err(CardParseError::InvalidRankValue(val)),
        }
    }

    /// The rank named by `c` (`2`-`9`, `T`, `J`, `Q`, `K`, `A`, face letters in either case).
    pub fn from_char(c: char) -> (r: Result<Self, CardParseError>)
        ensures
            rank_of_char(c) matches Some(i) ==> r == Ok::<Rank, CardParseError>(rank_from_index(i)),
            rank_of_char(c) is None ==> r == Err::<Rank, CardParseError>(CardParseError::InvalidRankChar(c)),
    {
        match c {
            '2' => Ok(Rank::Two),
            '3' => Ok(Rank::Three),
            '4' => Ok(Rank::Four),
            '5' => Ok(Rank::Five),
            '6' => Ok(Rank::Six),
            '7' => Ok(Rank::Seven),
            '8' => Ok(Rank::Eight),
            '9' => Ok(Rank::Nine),
            'T' | 't' => Ok(Rank::Ten),
            'J' | 'j' => Ok(Rank::Jack),
            'Q' | 'q' => Ok(Rank::Queen),
            'K' | 'k' => Ok(Rank::King),
            'A' | 'a' => Ok(Rank::Ace),
            _ => Err(CardParseError::InvalidRankChar(c)),
        }
    }

    /// The upper-case character naming this rank.
    pub fn as_char(self) -> (c: char)
        ensures
            c == rank_char_of(self.idx()),
    {
        match self {
            Rank::Two => '2',
            Rank::Three => '3',
            Rank::Four => '4',
            Rank::Five => '5',
            Rank::Six => '6',
            Rank::Seven => '7',
            Rank::Eight => '8',
            Rank::Nine => '9',
            Rank::Ten => 'T',
            Rank::Jack => 'J',
            Rank::Queen => 'Q',
            Rank::King => 'K',
            Rank::Ace => 'A',
        }
    }

    /// The one-character name of this rank.
    pub fn to_string(&self) -> (s: String)
        ensures
            s@ == seq![rank_char_of(self.idx())],
    {
        let mut s = String::new();
        push_char(&mut s, self.as_char());
        s
    }
}

/// Represents card suit: Spades (0), Hearts (1), Diamonds (2), Clubs (3).
#[derive(Debug, Copy, Clone, PartialEq, Eq, PartialOrd, Ord, Hash, Structural)]
pub enum Suit {
    Spades,
    Hearts,
    Diamonds,
    Clubs,
}

/// The suit of index `s`, for `s < 4`.
pub open spec fn suit_from_index(s: u32) -> Suit {
    if s == 0 { Suit::Spades } else if s == 1 { Suit::Hearts } else if s == 2 { Suit::Diamonds } else { Suit::Clubs }
}

impl Suit {
    /// All four suits.
    pub const ALL: [Suit; 4] = [Suit::Spades, Suit::Hearts, Suit::Diamonds, Suit::Clubs];

    /// The index of this suit: Spades = 0, Hearts = 1, Diamonds = 2, Clubs = 3.
    pub open spec fn idx(self) -> u32 {
        match self {
            Suit::Spades => 0,
            Suit::Hearts => 1,
            Suit::Diamonds => 2,
            Suit::Clubs => 3,
        }
    }

    /// The index of this suit as a byte.
    pub fn as_u8(self) -> (v: u8)
        ensures
            v as u32 == self.idx(),
            v < 4,
    {
        match self {
            Suit::Spades => 0,
            Suit::Hearts => 1,
            Suit::Diamonds => 2,
            Suit::Clubs => 3,
        }
    }

    /// Suit bitmask for Cactus-Kev encoding: Spades = 0x1, Hearts = 0x2, Diamonds = 0x4, Clubs = 0x8.
    pub fn mask_bit(self) -> (m: u32)
        ensures
            m == suit_mask_of(self.idx()),
    {
        match self {
            Suit::Spades => 0x1,
            Suit::Hearts => 0x2,
            Suit::Diamonds => 0x4,
            Suit::Clubs => 0x8,
        }
    }

    /// The suit of index `val`, or `InvalidSuitValue(val)` when `val >= 4`.
    pub fn from_u8(val: u8) -> (r: Result<Self, CardParseError>)
        ensures
            val < 4 ==> r == Ok::<Suit, CardParseError>(suit_from_index(val as u32)),
            val >= 4 ==> r == Err::<Suit, CardParseError>(CardParseError::InvalidSuitValue(val)),
    {
        match val {
            0 => Ok(Suit::Spades),
            1 => Ok(Suit::Hearts),
            2 => Ok(Suit::Diamonds),
            3 => Ok(Suit::Clubs),
            _ => Err(CardParseError::InvalidSuitValue(val)),
        }
    }

    /// The suit named by `c` (`s`, `h`, `d`, `c` in either case).
    pub fn from_char(c: char) -> (r: Result<Self, CardParseError>)
        ensures
            suit_of_char(c) matches Some(i) ==> r == Ok::<Suit, CardParseError>(suit_from_index(i)),
            suit_of_char(c) is None ==> r == Err::<Suit, CardParseError>(CardParseError::InvalidSuitChar(c)),
    {
        match c {
            's' | 'S' => Ok(Suit::Spades),
            'h' | 'H' => Ok(Suit::Hearts),
            'd' | 'D' => Ok(Suit::Diamonds),
            'c' | 'C' => Ok(Suit::Clubs),
            _ => Err(CardParseError::InvalidSuitChar(c)),
        }
    }

    /// The lower-case character naming this suit.
    pub fn as_char(self) -> (c: char)
        ensures
            c == suit_char_of(self.idx()),
    {
        match self {
            Suit::Spades => 's',
            Suit::Hearts => 'h',
            Suit::Diamonds => 'd',
            Suit::Clubs => 'c',
        }
    }

    /// The one-character name of this suit.
    pub fn to_string(&self) -> (s: String)
        ensures
            s@ == seq![suit_char_of(self.idx())],
    {
        let mut s = String::new();
        push_char(&mut s, self.as_char());
        s
    }
}

/// The fields of a packed encoding: rank index, suit mask, rank index, prime and rank bit.
proof fn lemma_encode_fields(r: u32, m: u32, p: u32)
    by (bit_vector)
    requires
        r < 13,
        m < 16,
        p < 64,
    ensures
        (((1u32 << ((16 + r) as u32)) | (m << 12u32) | (r << 8u32) | p) >> 8u32) & 0xFu32 == r,
        (((1u32 << ((16 + r) as u32)) | (m << 12u32) | (r << 8u32) | p) >> 12u32) & 0xFu32 == m,
        ((1u32 << ((16 + r) as u32)) | (m << 12u32) | (r << 8u32) | p) & 0x3Fu32 == p,
        (((1u32 << ((16 + r) as u32)) | (m << 12u32) | (r << 8u32) | p) >> 16u32) & 0x1FFFu32 == (1u32 << r),
        ((1u32 << ((16 + r) as u32)) | (m << 12u32) | (r << 8u32) | p) & 0xF000u32 == (m << 12u32),
        ((1u32 << ((16 + r) as u32)) | (m << 12u32) | (r << 8u32) | p) >> 16u32 == (1u32 << r),
        ((1u32 << ((16 + r) as u32)) | (m << 12u32) | (r << 8u32) | p) & 0xFFu32 == p,
{
}

/// The fields of the packed encoding of a rank and a suit.
pub proof fn lemma_encode(r: u32, s: u32)
    requires
        r < 13,
        s < 4,
    ensures
        (encode(r, s) >> 8u32) & 0xFu32 == r,
        (encode(r, s) >> 12u32) & 0xFu32 == suit_mask_of(s),
        encode(r, s) & 0x3Fu32 == prime_of_rank(r),
        encode(r, s) & 0xFFu32 == prime_of_rank(r),
        (encode(r, s) >> 16u32) & 0x1FFFu32 == (1u32 << r),
        encode(r, s) >> 16u32 == (1u32 << r),
        encode(r, s) & 0xF000u32 == (suit_mask_of(s) << 12u32),
{
    lemma_encode_fields(r, suit_mask_of(s), prime_of_rank(r));
}

/// 32-bit packed card encoder following the Cactus-Kev standard representation.
///
/// Layout:
/// - Bits 00..=05: Prime number associated with rank (2, 3, 5, ..., 41)
/// - Bits 08..=11: Rank integer (0..=12)
/// - Bits 12..=15: Suit bitmask (s=0x1000, h=0x2000, d=0x4000, c=0x8000)
/// - Bits 16..=28: Rank bitmask: (1 << (16 + rank))
#[derive(Debug, Copy, Clone, PartialEq, Eq, PartialOrd, Ord, Hash, Structural)]
pub struct Card(u32);

impl Card {
    /// The packed 32-bit value of this card.
    pub closed spec fn bits(self) -> u32 {
        self.0
    }

    /// The rank index stored in bits 8..=11.
    pub open spec fn rank_idx(self) -> u32 {
        (self.bits() >> 8u32) & 0xFu32
    }

    /// The one-hot suit mask stored in bits 12..=15.
    pub open spec fn suit_bits(self) -> u32 {
        (self.bits() >> 12u32) & 0xFu32
    }

    /// The suit index named by the suit mask.
    pub open spec fn suit_idx(self) -> u32 {
        let m = self.suit_bits();
        if m == 1 { 0 } else if m == 2 { 1 } else if m == 4 { 2 } else { 3 }
    }

    /// The packed value is the encoding of one of the 52 cards.
    pub open spec fn valid(self) -> bool {
        &&& self.rank_idx() < 13
        &&& (self.suit_bits() == 1 || self.suit_bits() == 2 || self.suit_bits() == 4
            || self.suit_bits() == 8)
        &&& self.bits() == encode(self.rank_idx(), self.suit_idx())
    }

    /// The rank field names one of the 13 ranks and the suit field is one-hot,
    /// so that the rank and the suit can be read back (the packed value may still
    /// differ from the encoding of that rank and suit).
    pub open spec fn fields_readable(self) -> bool {
        &&& self.rank_idx() < 13
        &&& (self.suit_bits() == 1 || self.suit_bits() == 2 || self.suit_bits() == 4
            || self.suit_bits() == 8)
    }

    /// This card is the valid card of rank index `r` and suit index `s`.
    pub open spec fn is_card(self, r: u32, s: u32) -> bool {
        self.valid() && self.rank_idx() == r && self.suit_idx() == s
    }

    /// The deck index `rank * 4 + suit` of this card.
    pub open spec fn index_of(self) -> int {
        self.rank_idx() * 4 + self.suit_idx()
    }

    /// Two cards with the same packed value are the same card.
    pub proof fn lemma_bits_eq(a: Card, b: Card)
        requires
            a.bits() == b.bits(),
        ensures
            a == b,
    {
    }

    /// Two valid cards with the same deck index are the same card.
    pub proof fn lemma_index_injective(a: Card, b: Card)
        requires
            a.valid(),
            b.valid(),
            a.index_of() == b.index_of(),
        ensures
            a == b,
    {
        assert(a.rank_idx() == b.rank_idx() && a.suit_idx() == b.suit_idx()) by (nonlinear_arith)
            requires
                a.rank_idx() * 4 + a.suit_idx() == b.rank_idx() * 4 + b.suit_idx(),
                a.suit_idx() < 4,
                b.suit_idx() < 4,
        ;
    }

    /// The facts about the fields of a valid card.
    pub proof fn lemma_valid(self)
        requires
            self.valid(),
        ensures
            self.suit_idx() < 4,
            self.suit_bits() == suit_mask_of(self.suit_idx()),
            self.bits() & 0xFFu32 == prime_of_rank(self.rank_idx()),
            self.bits() >> 16u32 == (1u32 << self.rank_idx()),
            self.bits() & 0xF000u32 == (suit_mask_of(self.suit_idx()) << 12u32),
            0 <= self.index_of() < 52,
    {
        lemma_encode(self.rank_idx(), self.suit_idx());
    }

    /// Constructs a packed 32-bit Card from Rank and Suit.
    pub fn new(rank: Rank, suit: Suit) -> (c: Self)
        ensures
            c.is_card(rank.idx(), suit.idx()),
            c.bits() == encode(rank.idx(), suit.idx()),
    {
        let r = rank.as_u8() as u32;
        let prime = rank.prime();
        let suit_bit = suit.mask_bit();
        let rank_mask = 1u32 << (16 + r);
        let packed = rank_mask | (suit_bit << 12) | (r << 8) | prime;
        proof {
            lemma_encode(r, suit.idx());
        }
        Card(packed)
    }

    /// Wraps a pre-encoded 32-bit raw integer.
    pub fn from_raw(raw: u32) -> (c: Self)
        ensures
            c.bits() == raw,
    {
        Card(raw)
    }

    /// Returns the underlying 32-bit packed representation.
    pub fn raw(self) -> (r: u32)
        ensures
            r == self.bits(),
    {
        self.0
    }

    /// Returns the rank prime (bits 0..=5).
    pub fn prime(self) -> (p: u32)
        ensures
            p == self.bits() & 0x3Fu32,
            self.valid() ==> p == prime_of_rank(self.rank_idx()),
    {
        proof {
            if self.valid() {
                lemma_encode(self.rank_idx(), self.suit_idx());
            }
        }
        self.0 & 0x3F
    }

    /// Returns the rank of this card (bits 8..=11).
    pub fn rank(self) -> (r: Rank)
        requires
            self.rank_idx() < 13,
        ensures
            r.idx() == self.rank_idx(),
    {
        let r = ((self.0 >> 8) & 0xF) as u8;
        match Rank::from_u8(r) {
            Ok(rank) => rank,
            Err(_) => Rank::Two,
        }
    }

    /// Returns the suit of this card (derived from suit bits 12..=15).
    pub fn suit(self) -> (s: Suit)
        requires
            self.suit_bits() == 1 || self.suit_bits() == 2 || self.suit_bits() == 4
                || self.suit_bits() == 8,
        ensures
            s.idx() == self.suit_idx(),
    {
        let s_mask = (self.0 >> 12) & 0xF;
        if s_mask == 0x1 {
            Suit::Spades
        } else if s_mask == 0x2 {
            Suit::Hearts
        } else if s_mask == 0x4 {
            Suit::Diamonds
        } else {
            Suit::Clubs
        }
    }

    /// Returns the suit bitmask (0x1, 0x2, 0x4, or 0x8).
    pub fn suit_bitmask(self) -> (m: u32)
        ensures
            m == self.suit_bits(),
            self.valid() ==> m == suit_mask_of(self.suit_idx()),
    {
        (self.0 >> 12) & 0xF
    }

    /// Returns the rank bitmask shifted to 0..12 (1 << rank).
    pub fn rank_bitmask(self) -> (m: u32)
        ensures
            m == (self.bits() >> 16u32) & 0x1FFFu32,
            self.valid() ==> m == (1u32 << self.rank_idx()),
    {
        proof {
            if self.valid() {
                lemma_encode(self.rank_idx(), self.suit_idx());
            }
        }
        (self.0 >> 16) & 0x1FFF
    }

    /// Returns the unique card index in [0, 52), indexed as `rank * 4 + suit`.
    pub fn index(self) -> (i: usize)
        requires
            self.fields_readable(),
        ensures
            i == self.index_of(),
            i < 52,
    {
        (self.rank().as_u8() as usize) * 4 + (self.suit().as_u8() as usize)
    }

    /// Reconstructs a Card from a unique index in [0, 52).
    pub fn from_index(idx: usize) -> (r: Result<Self, CardParseError>)
        ensures
            idx < 52 ==> (r matches Ok(c) && c.is_card((idx / 4) as u32, (idx % 4) as u32)),
            idx >= 52 ==> r == Err::<Card, CardParseError>(CardParseError::InvalidCardIndex(idx)),
    {
        if idx >= 52 {
            return Err(CardParseError::InvalidCardIndex(idx));
        }
        let r = (idx / 4) as u8;
        let s = (idx % 4) as u8;
        let rank = match Rank::from_u8(r) {
            Ok(rank) => rank,
            Err(e) => return Err(e),
        };
        let suit = match Suit::from_u8(s) {
            Ok(suit) => suit,
            Err(e) => return Err(e),
        };
        Ok(Card::new(rank, suit))
    }

    /// Parses a rank character and a suit character (e.g. 'A', 'h') into a card.
    pub fn from_chars(rank_ch: char, suit_ch: char) -> (r: Result<Self, CardParseError>)
        ensures
            card_result_matches(r, parse_card_chars(rank_ch, suit_ch)),
    {
        let rank = match Rank::from_char(rank_ch) {
            Ok(r) => r,
            Err(e) => return Err(e),
        };
        let suit = match Suit::from_char(suit_ch) {
            Ok(s) => s,
            Err(e) => return Err(e),
        };
        Ok(Card::new(rank, suit))
    }

    /// Parses a 2-byte string (e.g. "Ah", "2c"); any other byte length is `InvalidLength`.
    pub fn from_str_exact(s: &str) -> (r: Result<Self, CardParseError>)
        ensures
            card_result_matches(r, parse_card_bytes(s.spec_bytes())),
    {
        let bytes = s.as_bytes();
        if bytes.len() != 2 {
            return Err(CardParseError::InvalidLength(bytes.len()));
        }
        Self::from_chars(bytes[0] as char, bytes[1] as char)
    }

    /// The two-character name of this card, rank then suit (e.g. "Ah").
    pub fn to_string(&self) -> (s: String)
        requires
            self.fields_readable(),
        ensures
            s@ == seq![rank_char_of(self.rank_idx()), suit_char_of(self.suit_idx())],
    {
        let mut s = String::new();
        push_char(&mut s, self.rank().as_char());
        push_char(&mut s, self.suit().as_char());
        s
    }
}

/// The indices (rank, suit) that a rank character and a suit character name, or the error.
pub open spec fn parse_card_chars(rank_ch: char, suit_ch: char) -> Result<(u32, u32), CardParseError> {
    match rank_of_char(rank_ch) {
        None => Err(CardParseError::InvalidRankChar(rank_ch)),
        Some(r) => match suit_of_char(suit_ch) {
            None => Err(CardParseError::InvalidSuitChar(suit_ch)),
            Some(s) => Ok((r, s)),
        },
    }
}

/// The card that a byte string names, reading each of exactly two bytes as a character.
pub open spec fn parse_card_bytes(b: Seq<u8>) -> Result<(u32, u32), CardParseError> {
    if b.len() != 2 {
        Err(CardParseError::InvalidLength(b.len() as usize))
    } else {
        parse_card_chars(b[0] as char, b[1] as char)
    }
}

/// A card parse result agrees with the expected indices or error.
pub open spec fn card_result_matches(
    r: Result<Card, CardParseError>,
    expected: Result<(u32, u32), CardParseError>,
) -> bool {
    match (r, expected) {
        (Ok(c), Ok((ri, si))) => c.is_card(ri, si),
        (Err(e), Err(e2)) => e == e2,
        _ => false,
    }
}

/// The card of rank index `r` and suit index `s`.
pub closed spec fn card_from_indices(r: u32, s: u32) -> Card {
    Card(encode(r, s))
}

/// A card is the card of its rank and suit indices.
pub proof fn lemma_card_from_indices(c: Card, r: u32, s: u32)
    requires
        c.is_card(r, s),
    ensures
        c == card_from_indices(r, s),
{
}

/// What reading a card name gives: the card it names, or the parse error.
pub open spec fn card_of_name(v: Seq<u8>) -> Result<Card, CardParseError> {
    match parse_card_bytes(v) {
        Ok((r, s)) => Ok(card_from_indices(r, s)),
        Err(e) => Err(e),
    }
}

impl<'a> core::convert::TryFrom<&'a str> for Card {
    type Error = CardParseError;

    fn try_from(value: &'a str) -> (r: Result<Self, Self::Error>) {
        let r = Card::from_str_exact(value);
        proof {
            if let Ok(c) = r {
                let (ri, si) = parse_card_bytes(value.spec_bytes())->Ok_0;
                lemma_card_from_indices(c, ri, si);
            }
        }
        r
    }
}

impl<'a> vstd::std_specs::convert::TryFromSpecImpl<&'a str> for Card {
    open spec fn obeys_try_from_spec() -> bool {
        true
    }

    open spec fn try_from_spec(v: &'a str) -> Result<Self, CardParseError> {
        card_of_name(v.spec_bytes())
    }
}

impl core::str::FromStr for Card {
    type Err = CardParseError;

    fn from_str(s: &str) -> (r: Result<Self, Self::Err>)
        ensures
            r == card_of_name(s.spec_bytes()),
    {
        let r = Card::from_str_exact(s);
        proof {
            if let Ok(c) = r {
                let (ri, si) = parse_card_bytes(s.spec_bytes())->Ok_0;
                lemma_card_from_indices(c, ri, si);
            }
        }
        r
    }
}

/// Errors occurring during card string or index parsing.
#[derive(Debug, Copy, Clone, PartialEq, Eq, Structural)]
pub enum CardParseError {
    InvalidLength(usize),
    InvalidRankChar(char),
    InvalidSuitChar(char),
    InvalidRankValue(u8),
    InvalidSuitValue(u8),
    InvalidCardIndex(usize),
}


/// A card's name reads back as the card: the rank character and suit character of any
/// rank `r < 13` and suit `s < 4` parse to exactly that rank and suit.
pub proof fn lemma_card_name_round_trip(r: u32, s: u32)
    requires
        r < 13,
        s < 4,
    ensures
        parse_card_chars(rank_char_of(r), suit_char_of(s)) == Ok::<(u32, u32), CardParseError>((r, s)),
{
}


/// The ASCII lower-case form of a character: `A`..=`Z` become `a`..=`z`, the rest stay.
pub open spec fn ascii_lowercase(c: char) -> char {
    if 'A' <= c && c <= 'Z' {
        ((c as u32) + 32) as char
    } else {
        c
    }
}

/// A card's two-character name, in upper or in lower case, reads back as that card: the
/// name that `Card::to_string` gives (rank character, then suit character), and the same
/// name with its letters in lower case, both parse to `Ok(c)`.
pub proof fn lemma_card_string_round_trip(c: Card, text: &str)
    requires
        c.valid(),
        text@ == seq![rank_char_of(c.rank_idx()), suit_char_of(c.suit_idx())] || text@ == seq![
            ascii_lowercase(rank_char_of(c.rank_idx())),
            ascii_lowercase(suit_char_of(c.suit_idx())),
        ],
    ensures
        parse_card_bytes(text.spec_bytes()) == Ok::<(u32, u32), CardParseError>((c.rank_idx(), c.suit_idx())),
        card_of_name(text.spec_bytes()) == Ok::<Card, CardParseError>(c),
        forall|r: Result<Card, CardParseError>|
            #[trigger] card_result_matches(r, parse_card_bytes(text.spec_bytes())) ==> r == Ok::<Card, CardParseError>(c),
{
    broadcast use vstd::string::is_ascii_spec_bytes;

    c.lemma_valid();
    assert(vstd::string::is_ascii(text));
    let b = text.spec_bytes();
    assert(b.len() == 2);
    assert(b[0] as char == text@[0]);
    assert(b[1] as char == text@[1]);
    lemma_card_from_indices(c, c.rank_idx(), c.suit_idx());
    assert forall|r: Result<Card, CardParseError>|
        #[trigger] card_result_matches(r, parse_card_bytes(b)) implies r == Ok::<Card, CardParseError>(c) by {
        if let Ok(d) = r {
            lemma_card_from_indices(d, c.rank_idx(), c.suit_idx());
        }
    }
}

} // verus!

