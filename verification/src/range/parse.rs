//! Grammar of poker range strings such as `"AA, KK, AKs, TT+, A5s-A2s, 0.5*87s"`.
//!
//! A range string is split into tokens; each token may carry a weight (`w*HAND` or
//! `HAND:w`) and names a group of hole-card combinations. This module tokenizes the string
//! and expands each hand group to the combo indices it names; turning a weight's text into
//! a number is left to the caller.
use vstd::prelude::*;
use vstd::string::StringSliceAdditionalSpecFns;
use crate::card::{Card, Rank, parse_card_chars, rank_from_index, rank_of_char};
use crate::range::combo::{
    CanonicalHand, canonical_combos, canonical_ordered, cards_to_combo, high_idx, lemma_canonical_combo_cards,
    lemma_canonical_combos_distinct, lemma_canonical_unique, low_idx, pair_combo, rank_of_index,
    NUM_HOLE_COMBOS,
};
use crate::text::{chars_between, find_char, first_index_of, str_to_chars, string_from_chars, trim_seq, trimmed_between};

verus! {

/// Errors that can occur when parsing a poker range string.
#[derive(Debug, Clone, PartialEq, Eq)]
pub enum RangeParseError {
    InvalidToken(String),
    InvalidRank(char),
    InvalidWeight(String),
    InvalidRankOrder(String),
}

/// The mathematical content of a `RangeParseError`.
pub ghost enum RangeError {
    InvalidToken(Seq<char>),
    InvalidRank(char),
    InvalidWeight(Seq<char>),
    InvalidRankOrder(Seq<char>),
}

/// The content of an error value.
pub open spec fn error_view(e: RangeParseError) -> RangeError {
    match e {
        RangeParseError::InvalidToken(s) => RangeError::InvalidToken(s@),
        RangeParseError::InvalidRank(c) => RangeError::InvalidRank(c),
        RangeParseError::InvalidWeight(s) => RangeError::InvalidWeight(s@),
        RangeParseError::InvalidRankOrder(s) => RangeError::InvalidRankOrder(s@),
    }
}

/// A vector of combo indices viewed as mathematical integers.
pub open spec fn combos_view(v: Seq<usize>) -> Seq<int> {
    v.map_values(|x: usize| x as int)
}

/// A parse result agrees with the expected combo list or error.
pub open spec fn combos_result_matches(
    r: Result<Vec<usize>, RangeParseError>,
    expected: Result<Seq<int>, RangeError>,
) -> bool {
    match (r, expected) {
        (Ok(v), Ok(s)) => combos_view(v@) == s,
        (Err(e), Err(e2)) => error_view(e) == e2,
        _ => false,
    }
}

/// Every index of `v` names one of the hole-card combinations.
pub open spec fn all_combos_valid(v: Seq<usize>) -> bool {
    forall|i: int| 0 <= i < v.len() ==> #[trigger] v[i] < NUM_HOLE_COMBOS
}

/// The rank index named by a range character, or `InvalidRank`.
pub open spec fn range_rank(c: char) -> Result<int, RangeError> {
    match rank_of_char(c) {
        Some(r) => Ok(r as int),
        None => Err(RangeError::InvalidRank(c)),
    }
}

/// The combos of the pocket pairs of ranks `lo..=hi`, lowest rank first.
pub open spec fn pair_combos(lo: int, hi: int) -> Seq<int>
    decreases hi - lo + 1,
{
    if lo > hi {
        Seq::empty()
    } else {
        canonical_combos(CanonicalHand::Pair(rank_from_index(lo as u32))) + pair_combos(lo + 1, hi)
    }
}

/// The combos of the hands `fixed` with each kicker of `lo..=hi`, suited or offsuit.
pub open spec fn kicker_combos(fixed: int, lo: int, hi: int, suited: bool) -> Seq<int>
    decreases hi - lo + 1,
{
    if lo > hi {
        Seq::empty()
    } else {
        let h = if suited {
            CanonicalHand::Suited(rank_from_index(fixed as u32), rank_from_index(lo as u32))
        } else {
            CanonicalHand::Offsuit(rank_from_index(fixed as u32), rank_from_index(lo as u32))
        };
        canonical_combos(h) + kicker_combos(fixed, lo + 1, hi, suited)
    }
}

/// A single canonical category: `AA`, `AK` (suited and offsuit), `AKs`, `AKo`.
pub open spec fn single_canonical_spec(cs: Seq<char>) -> Result<Seq<int>, RangeError> {
    if cs.len() == 2 || cs.len() == 3 {
        match range_rank(cs[0]) {
            Err(e) => Err(e),
            Ok(r1) => match range_rank(cs[1]) {
                Err(e) => Err(e),
                Ok(r2) => {
                    let high = if r1 > r2 { r1 } else { r2 };
                    let low = if r1 > r2 { r2 } else { r1 };
                    let hi_rank = rank_from_index(high as u32);
                    let lo_rank = rank_from_index(low as u32);
                    if cs.len() == 2 {
                        if r1 == r2 {
                            Ok(canonical_combos(CanonicalHand::Pair(rank_from_index(r1 as u32))))
                        } else {
                            Ok(canonical_combos(CanonicalHand::Suited(hi_rank, lo_rank))
                                + canonical_combos(CanonicalHand::Offsuit(hi_rank, lo_rank)))
                        }
                    } else if cs[2] == 's' || cs[2] == 'S' {
                        Ok(canonical_combos(CanonicalHand::Suited(hi_rank, lo_rank)))
                    } else if cs[2] == 'o' || cs[2] == 'O' {
                        Ok(canonical_combos(CanonicalHand::Offsuit(hi_rank, lo_rank)))
                    } else {
                        Err(RangeError::InvalidToken(cs))
                    }
                },
            },
        }
    } else {
        Err(RangeError::InvalidToken(cs))
    }
}

/// Plus notation without its `+`: `TT` (TT and above), `ATs` / `AJo` (kickers up to the
/// rank below the first).
pub open spec fn plus_spec(cs: Seq<char>) -> Result<Seq<int>, RangeError> {
    if cs.len() == 2 && cs[0] == cs[1] {
        match range_rank(cs[0]) {
            Err(e) => Err(e),
            Ok(r) => Ok(pair_combos(r, 12)),
        }
    } else if cs.len() == 3 {
        match range_rank(cs[0]) {
            Err(e) => Err(e),
            Ok(r1) => match range_rank(cs[1]) {
                Err(e) => Err(e),
                Ok(r2) => {
                    if r1 <= r2 {
                        Err(RangeError::InvalidRankOrder(cs))
                    } else if cs[2] == 's' || cs[2] == 'S' {
                        Ok(kicker_combos(r1, r2, r1 - 1, true))
                    } else if cs[2] == 'o' || cs[2] == 'O' {
                        Ok(kicker_combos(r1, r2, r1 - 1, false))
                    } else {
                        Err(RangeError::InvalidToken(cs))
                    }
                },
            },
        }
    } else {
        Err(RangeError::InvalidToken(cs))
    }
}

/// Dash notation: `99-66` (pairs between) or `A5s-A2s` / `KJo-K9o` (kickers between).
pub open spec fn dash_spec(start: Seq<char>, end: Seq<char>) -> Result<Seq<int>, RangeError> {
    if start.len() == 2 && end.len() == 2 && start[0] == start[1] && end[0] == end[1] {
        match range_rank(start[0]) {
            Err(e) => Err(e),
            Ok(a) => match range_rank(end[0]) {
                Err(e) => Err(e),
                Ok(b) => Ok(pair_combos(if a > b { b } else { a }, if a > b { a } else { b })),
            },
        }
    } else if start.len() == 3 && end.len() == 3 && start[0] == end[0] && start[2] == end[2] {
        match range_rank(start[0]) {
            Err(e) => Err(e),
            Ok(fixed) => match range_rank(start[1]) {
                Err(e) => Err(e),
                Ok(k1) => match range_rank(end[1]) {
                    Err(e) => Err(e),
                    Ok(k2) => {
                        let lo = if k1 > k2 { k2 } else { k1 };
                        let hi = if k1 > k2 { k1 } else { k2 };
                        if start[2] == 's' || start[2] == 'S' {
                            Ok(kicker_combos(fixed, lo, hi, true))
                        } else if start[2] == 'o' || start[2] == 'O' {
                            Ok(kicker_combos(fixed, lo, hi, false))
                        } else {
                            Err(RangeError::InvalidToken(start))
                        }
                    },
                },
            },
        }
    } else {
        Err(RangeError::InvalidToken(start + seq!['-'] + end))
    }
}

/// The combos named by a hand group; `byte_len` is the length of its UTF-8 encoding.
pub open spec fn hand_group_spec(cs: Seq<char>, byte_len: int) -> Result<Seq<int>, RangeError> {
    let dash = first_index_of(cs, '-');
    if byte_len == 4 && cs.len() >= 4 && parse_card_chars(cs[0], cs[1]) is Ok && parse_card_chars(
        cs[2],
        cs[3],
    ) is Ok {
        let (r1, s1) = parse_card_chars(cs[0], cs[1])->Ok_0;
        let (r2, s2) = parse_card_chars(cs[2], cs[3])->Ok_0;
        Ok(seq![pair_combo(r1 * 4 + s1, r2 * 4 + s2)])
    } else if dash >= 0 {
        dash_spec(trim_seq(cs.take(dash)), trim_seq(cs.skip(dash + 1)))
    } else if cs.len() > 0 && cs.last() == '+' {
        plus_spec(cs.drop_last())
    } else {
        single_canonical_spec(cs)
    }
}

/// Parses a rank character of a range string.
fn parse_rank(c: char) -> (r: Result<Rank, RangeParseError>)
    ensures
        match (r, range_rank(c)) {
            (Ok(k), Ok(i)) => k.idx() == i && k == rank_from_index(i as u32),
            (Err(e), Err(e2)) => error_view(e) == e2,
            _ => false,
        },
{
    match Rank::from_char(c) {
        Ok(r) => Ok(r),
        Err(_) => Err(RangeParseError::InvalidRank(c)),
    }
}

/// Appends the combos of a canonical hand.
fn push_canonical(v: &mut Vec<usize>, h: CanonicalHand)
    ensures
        combos_view(final(v)@) == combos_view(old(v)@) + canonical_combos(h),
        forall|i: int| 0 <= i < final(v)@.len() && !(0 <= i < old(v)@.len()) ==> #[trigger] final(v)@[i] < NUM_HOLE_COMBOS,
        forall|i: int| 0 <= i < old(v)@.len() ==> #[trigger] final(v)@[i] == old(v)@[i],
{
    let w = h.combo_indices();
    let n = w.len();
    let mut i: usize = 0;
    let ghost start = v@;
    while i < n
        invariant
            n == w@.len(),
            i <= n,
            combos_view(w@) == canonical_combos(h),
            forall|k: int| 0 <= k < w@.len() ==> #[trigger] w@[k] < NUM_HOLE_COMBOS,
            v@ == start + w@.subrange(0, i as int),
        decreases n - i,
    {
        v.push(w[i]);
        proof {
            assert(w@.subrange(0, i + 1) =~= w@.subrange(0, i as int).push(w@[i as int]));
        }
        i = i + 1;
    }
    proof {
        assert(w@.subrange(0, n as int) =~= w@);
        assert(combos_view(v@) =~= combos_view(start) + combos_view(w@));
    }
}

/// The combos of the pocket pairs of ranks `lo..=hi`.
fn push_pairs(v: &mut Vec<usize>, lo: usize, hi: usize)
    requires
        lo <= hi + 1,
        hi <= 12,
        all_combos_valid(old(v)@),
    ensures
        combos_view(final(v)@) == combos_view(old(v)@) + pair_combos(lo as int, hi as int),
        all_combos_valid(final(v)@),
{
    let mut r = lo;
    proof {
        assert(combos_view(v@) =~= combos_view(v@) + Seq::<int>::empty());
    }
    while r <= hi
        invariant
            lo <= r <= hi + 1,
            hi <= 12,
            combos_view(old(v)@) + pair_combos(lo as int, hi as int) == combos_view(v@) + pair_combos(r as int, hi as int),
            all_combos_valid(v@),
        decreases hi + 1 - r,
    {
        let ghost before = combos_view(v@);
        push_canonical(v, CanonicalHand::Pair(rank_of_index(r)));
        proof {
            assert(before + pair_combos(r as int, hi as int) =~= combos_view(v@) + pair_combos(r + 1, hi as int));
        }
        r = r + 1;
    }
    proof {
        assert(combos_view(v@) + pair_combos(r as int, hi as int) =~= combos_view(v@));
    }
}

/// The combos of `fixed` with kickers `lo..=hi`, suited or offsuit.
fn push_kickers(v: &mut Vec<usize>, fixed: Rank, lo: usize, hi: usize, suited: bool)
    requires
        lo <= hi + 1,
        hi <= 12,
        all_combos_valid(old(v)@),
    ensures
        combos_view(final(v)@) == combos_view(old(v)@) + kicker_combos(fixed.idx() as int, lo as int, hi as int, suited),
        all_combos_valid(final(v)@),
{
    let mut k = lo;
    proof {
        assert(fixed == rank_from_index(fixed.idx()));
    }
    while k <= hi
        invariant
            lo <= k <= hi + 1,
            hi <= 12,
            fixed == rank_from_index(fixed.idx()),
            combos_view(old(v)@) + kicker_combos(fixed.idx() as int, lo as int, hi as int, suited)
                == combos_view(v@) + kicker_combos(fixed.idx() as int, k as int, hi as int, suited),
            all_combos_valid(v@),
        decreases hi + 1 - k,
    {
        let ghost before = combos_view(v@);
        let h = if suited {
            CanonicalHand::Suited(fixed, rank_of_index(k))
        } else {
            CanonicalHand::Offsuit(fixed, rank_of_index(k))
        };
        push_canonical(v, h);
        proof {
            assert(before + kicker_combos(fixed.idx() as int, k as int, hi as int, suited) =~= combos_view(v@)
                + kicker_combos(fixed.idx() as int, k + 1, hi as int, suited));
        }
        k = k + 1;
    }
    proof {
        assert(combos_view(v@) + kicker_combos(fixed.idx() as int, k as int, hi as int, suited) =~= combos_view(v@));
    }
}

/// `AA`, `AK`, `AKs`, `AKo`.
fn parse_single_canonical(cs: &Vec<char>) -> (r: Result<Vec<usize>, RangeParseError>)
    ensures
        combos_result_matches(r, single_canonical_spec(cs@)),
        r matches Ok(v) ==> all_combos_valid(v@),
{
    if cs.len() == 2 || cs.len() == 3 {
        let r1 = match parse_rank(cs[0]) {
            Ok(r) => r,
            Err(e) => return Err(e),
        };
        let r2 = match parse_rank(cs[1]) {
            Ok(r) => r,
            Err(e) => return Err(e),
        };
        let (high, low) = if r1.as_u8() > r2.as_u8() { (r1, r2) } else { (r2, r1) };
        let mut v: Vec<usize> = Vec::new();
        proof {
            assert(combos_view(v@) =~= Seq::<int>::empty());
            assert(high == rank_from_index(high.idx()) && low == rank_from_index(low.idx()));
        }
        if cs.len() == 2 {
            if r1.as_u8() == r2.as_u8() {
                push_canonical(&mut v, CanonicalHand::Pair(r1));
            } else {
                push_canonical(&mut v, CanonicalHand::Suited(high, low));
                push_canonical(&mut v, CanonicalHand::Offsuit(high, low));
            }
            return Ok(v);
        }
        let flag = cs[2];
        if flag == 's' || flag == 'S' {
            push_canonical(&mut v, CanonicalHand::Suited(high, low));
            return Ok(v);
        } else if flag == 'o' || flag == 'O' {
            push_canonical(&mut v, CanonicalHand::Offsuit(high, low));
            return Ok(v);
        } else {
            return Err(RangeParseError::InvalidToken(string_from_chars(cs.as_slice())));
        }
    }
    Err(RangeParseError::InvalidToken(string_from_chars(cs.as_slice())))
}

/// Plus notation, given the text before the `+`.
fn parse_plus_notation(cs: &Vec<char>) -> (r: Result<Vec<usize>, RangeParseError>)
    ensures
        combos_result_matches(r, plus_spec(cs@)),
        r matches Ok(v) ==> all_combos_valid(v@),
{
    if cs.len() == 2 && cs[0] == cs[1] {
        let start = match parse_rank(cs[0]) {
            Ok(r) => r,
            Err(e) => return Err(e),
        };
        let mut v: Vec<usize> = Vec::new();
        push_pairs(&mut v, start.as_u8() as usize, 12);
        proof {
            assert(combos_view(v@) =~= pair_combos(start.idx() as int, 12));
        }
        return Ok(v);
    } else if cs.len() == 3 {
        let r1 = match parse_rank(cs[0]) {
            Ok(r) => r,
            Err(e) => return Err(e),
        };
        let r2 = match parse_rank(cs[1]) {
            Ok(r) => r,
            Err(e) => return Err(e),
        };
        if r1.as_u8() <= r2.as_u8() {
            return Err(RangeParseError::InvalidRankOrder(string_from_chars(cs.as_slice())));
        }
        let flag = cs[2];
        let suited = if flag == 's' || flag == 'S' {
            true
        } else if flag == 'o' || flag == 'O' {
            false
        } else {
            return Err(RangeParseError::InvalidToken(string_from_chars(cs.as_slice())));
        };
        let mut v: Vec<usize> = Vec::new();
        push_kickers(&mut v, r1, r2.as_u8() as usize, (r1.as_u8() - 1) as usize, suited);
        proof {
            assert(combos_view(v@) =~= kicker_combos(r1.idx() as int, r2.idx() as int, r1.idx() - 1, suited));
        }
        return Ok(v);
    }
    Err(RangeParseError::InvalidToken(string_from_chars(cs.as_slice())))
}

/// Dash notation between two trimmed ends.
fn parse_dash_range(start: &Vec<char>, end: &Vec<char>) -> (r: Result<Vec<usize>, RangeParseError>)
    ensures
        combos_result_matches(r, dash_spec(start@, end@)),
        r matches Ok(v) ==> all_combos_valid(v@),
{
    if start.len() == 2 && end.len() == 2 && start[0] == start[1] && end[0] == end[1] {
        let a = match parse_rank(start[0]) {
            Ok(r) => r.as_u8() as usize,
            Err(e) => return Err(e),
        };
        let b = match parse_rank(end[0]) {
            Ok(r) => r.as_u8() as usize,
            Err(e) => return Err(e),
        };
        let (min_r, max_r) = if a > b { (b, a) } else { (a, b) };
        let mut v: Vec<usize> = Vec::new();
        push_pairs(&mut v, min_r, max_r);
        proof {
            assert(combos_view(v@) =~= pair_combos(min_r as int, max_r as int));
        }
        return Ok(v);
    }
    if start.len() == 3 && end.len() == 3 && start[0] == end[0] && start[2] == end[2] {
        let fixed = match parse_rank(start[0]) {
            Ok(r) => r,
            Err(e) => return Err(e),
        };
        let k1 = match parse_rank(start[1]) {
            Ok(r) => r.as_u8() as usize,
            Err(e) => return Err(e),
        };
        let k2 = match parse_rank(end[1]) {
            Ok(r) => r.as_u8() as usize,
            Err(e) => return Err(e),
        };
        let (min_k, max_k) = if k1 > k2 { (k2, k1) } else { (k1, k2) };
        let flag = start[2];
        let suited = if flag == 's' || flag == 'S' {
            true
        } else if flag == 'o' || flag == 'O' {
            false
        } else {
            return Err(RangeParseError::InvalidToken(string_from_chars(start.as_slice())));
        };
        let mut v: Vec<usize> = Vec::new();
        push_kickers(&mut v, fixed, min_k, max_k, suited);
        proof {
            assert(combos_view(v@) =~= kicker_combos(fixed.idx() as int, min_k as int, max_k as int, suited));
        }
        return Ok(v);
    }
    let mut text: Vec<char> = Vec::new();
    let mut i: usize = 0;
    while i < start.len()
        invariant
            i <= start@.len(),
            text@ == start@.take(i as int),
        decreases start@.len() - i,
    {
        text.push(start[i]);
        proof {
            assert(start@.take(i + 1) =~= start@.take(i as int).push(start@[i as int]));
        }
        i = i + 1;
    }
    text.push('-');
    let mut j: usize = 0;
    proof {
        assert(start@.take(start@.len() as int) =~= start@);
    }
    while j < end.len()
        invariant
            j <= end@.len(),
            text@ == start@ + seq!['-'] + end@.take(j as int),
        decreases end@.len() - j,
    {
        text.push(end[j]);
        proof {
            assert(start@ + seq!['-'] + end@.take(j + 1) =~= (start@ + seq!['-'] + end@.take(j as int)).push(end@[j as int]));
        }
        j = j + 1;
    }
    proof {
        assert(end@.take(end@.len() as int) =~= end@);
    }
    Err(RangeParseError::InvalidToken(string_from_chars(text.as_slice())))
}

/// Expands a hand group (`AhKh`, `99-66`, `A5s-A2s`, `TT+`, `ATs+`, `AA`, `AKs`, `AKo`, `AK`)
/// to the combo indices it names, in the order the categories are enumerated.
///
/// A group whose UTF-8 encoding has four bytes must have at least four characters.
pub fn expand_hand_group(spec: &str) -> (r: Result<Vec<usize>, RangeParseError>)
    requires
        spec.spec_bytes().len() == 4 ==> spec@.len() >= 4,
    ensures
        combos_result_matches(r, hand_group_spec(spec@, spec.spec_bytes().len() as int)),
        r matches Ok(v) ==> all_combos_valid(v@),
{
    let cs = str_to_chars(spec);
    let byte_len = spec.as_bytes().len();
    if byte_len == 4 {
        let c1 = Card::from_chars(cs[0], cs[1]);
        let c2 = Card::from_chars(cs[2], cs[3]);
        if let (Ok(a), Ok(b)) = (c1, c2) {
            let mut v: Vec<usize> = Vec::new();
            v.push(cards_to_combo(a, b));
            proof {
                assert(combos_view(v@) =~= seq![pair_combo(a.index_of(), b.index_of())]);
            }
            return Ok(v);
        }
    }
    if let Some(d) = find_char(&cs, '-') {
        let len = cs.len();
        let start = trimmed_between(&cs, 0, d);
        let end = trimmed_between(&cs, d + 1, len);
        proof {
            assert(cs@.subrange(0, d as int) =~= cs@.take(d as int));
            assert(cs@.subrange(d + 1, cs@.len() as int) =~= cs@.skip(d + 1));
        }
        let r = parse_dash_range(&start, &end);
        return r;
    }
    if cs.len() > 0 && cs[cs.len() - 1] == '+' {
        let base = chars_between(&cs, 0, cs.len() - 1);
        proof {
            assert(base@ =~= cs@.drop_last());
        }
        let r = parse_plus_notation(&base);
        return r;
    }
    parse_single_canonical(&cs)
}

/// A pending-weight token of a range string: the optional weight text and the hand group.
pub struct RangeToken {
    /// Text of the weight (before `*` or after `:`), if the token carries one.
    pub weight: Option<String>,
    /// The trimmed hand-group text.
    pub spec: String,
}

/// A range token separator: comma, semicolon or space.
pub open spec fn is_range_sep(c: char) -> bool {
    c == ',' || c == ';' || c == ' '
}

/// Index of the first separator at or after `i`, or `s.len()`.
pub open spec fn next_sep(s: Seq<char>, i: int) -> int
    decreases s.len() - i,
{
    if i >= s.len() {
        s.len() as int
    } else if is_range_sep(s[i]) {
        i
    } else {
        next_sep(s, i + 1)
    }
}

/// The weight text and hand group of a trimmed token.
pub open spec fn token_of(t: Seq<char>) -> (Option<Seq<char>>, Seq<char>) {
    let star = first_index_of(t, '*');
    let colon = first_index_of(t, ':');
    if star >= 0 {
        (Some(t.take(star)), trim_seq(t.skip(star + 1)))
    } else if colon >= 0 {
        (Some(t.skip(colon + 1)), trim_seq(t.take(colon)))
    } else {
        (None, t)
    }
}

/// The tokens of the pieces of `s` starting at position `i`: the pieces between separators
/// that are not blank, trimmed.
pub open spec fn tokens_from(s: Seq<char>, i: int) -> Seq<(Option<Seq<char>>, Seq<char>)>
    decreases s.len() - i + 1,
{
    if i > s.len() || i < 0 {
        Seq::empty()
    } else {
        let j = next_sep(s, i);
        let piece = trim_seq(s.subrange(i, j));
        let here = if piece.len() > 0 { seq![token_of(piece)] } else { Seq::empty() };
        if j >= s.len() {
            here
        } else {
            proof {
                lemma_next_sep(s, i);
            }
            here + tokens_from(s, j + 1)
        }
    }
}

/// The view of a token.
pub open spec fn token_view(t: RangeToken) -> (Option<Seq<char>>, Seq<char>) {
    (
        match t.weight {
            Some(w) => Some(w@),
            None => None,
        },
        t.spec@,
    )
}

/// `next_sep` finds the first separator at or after `i`.
pub proof fn lemma_next_sep(s: Seq<char>, i: int)
    requires
        0 <= i <= s.len(),
    ensures
        i <= next_sep(s, i) <= s.len(),
        next_sep(s, i) < s.len() ==> is_range_sep(s[next_sep(s, i)]),
        forall|k: int| i <= k < next_sep(s, i) ==> !is_range_sep(#[trigger] s[k]),
    decreases s.len() - i,
{
    if i < s.len() && !is_range_sep(s[i]) {
        lemma_next_sep(s, i + 1);
    }
}

/// Splits a range string into its weighted tokens.
pub fn range_tokens(input: &str) -> (r: Vec<RangeToken>)
    ensures
        r@.map_values(|t: RangeToken| token_view(t)) == tokens_from(input@, 0),
{
    let cs = str_to_chars(input);
    let n = cs.len();
    let mut out: Vec<RangeToken> = Vec::new();
    let mut i: usize = 0;
    let ghost s = cs@;
    proof {
        assert(out@.map_values(|t: RangeToken| token_view(t)) + tokens_from(s, 0) =~= tokens_from(s, 0));
    }
    loop
        invariant
            n == cs@.len(),
            s == cs@,
            s == input@,
            i <= n,
            out@.map_values(|t: RangeToken| token_view(t)) + tokens_from(s, i as int) == tokens_from(s, 0),
        decreases n - i,
    {
        let mut j = i;
        while j < n && !(cs[j] == ',' || cs[j] == ';' || cs[j] == ' ')
            invariant
                n == cs@.len(),
                i <= j <= n,
                forall|k: int| i <= k < j ==> !is_range_sep(#[trigger] cs@[k]),
            decreases n - j,
        {
            j = j + 1;
        }
        proof {
            lemma_next_sep(s, i as int);
            if next_sep(s, i as int) < j {
                assert(!is_range_sep(s[next_sep(s, i as int)]));
            }
            assert(next_sep(s, i as int) == j);
        }
        let piece = trimmed_between(&cs, i, j);
        let ghost before = out@.map_values(|t: RangeToken| token_view(t));
        if piece.len() > 0 {
            let tok = make_token(&piece);
            out.push(tok);
            proof {
                assert(out@.map_values(|t: RangeToken| token_view(t)) =~= before.push(token_of(piece@)));
            }
        } else {
            proof {
                assert(out@.map_values(|t: RangeToken| token_view(t)) =~= before);
            }
        }
        if j >= n {
            proof {
                let here = if piece@.len() > 0 { seq![token_of(piece@)] } else { Seq::empty() };
                assert(out@.map_values(|t: RangeToken| token_view(t)) =~= before + here);
                assert(tokens_from(s, i as int) == here);
            }
            return out;
        }
        proof {
            let here = if piece@.len() > 0 { seq![token_of(piece@)] } else { Seq::empty() };
            assert(out@.map_values(|t: RangeToken| token_view(t)) =~= before + here);
            assert(tokens_from(s, i as int) == here + tokens_from(s, j + 1));
        }
        i = j + 1;
    }
}

/// Splits a trimmed, non-blank token into its weight text and hand group.
fn make_token(t: &Vec<char>) -> (r: RangeToken)
    ensures
        token_view(r) == token_of(t@),
{
    let n = t.len();
    if let Some(k) = find_char(t, '*') {
        let w = chars_between(t, 0, k);
        let sp = trimmed_between(t, k + 1, n);
        proof {
            assert(t@.subrange(0, k as int) =~= t@.take(k as int));
            assert(t@.subrange(k + 1, n as int) =~= t@.skip(k + 1));
        }
        return RangeToken { weight: Some(string_from_chars(w.as_slice())), spec: string_from_chars(sp.as_slice()) };
    }
    if let Some(k) = find_char(t, ':') {
        let w = chars_between(t, k + 1, n);
        let sp = trimmed_between(t, 0, k);
        proof {
            assert(t@.subrange(0, k as int) =~= t@.take(k as int));
            assert(t@.subrange(k + 1, n as int) =~= t@.skip(k + 1));
        }
        return RangeToken { weight: Some(string_from_chars(w.as_slice())), spec: string_from_chars(sp.as_slice()) };
    }
    RangeToken { weight: None, spec: string_from_chars(t.as_slice()) }
}


/// A dash range of pairs or of kickers names the same combos whichever end is written
/// first, when every rank character in it names a rank and a kicker range is marked
/// suited or offsuit.
pub proof fn lemma_dash_order_irrelevant(start: Seq<char>, end: Seq<char>)
    requires
        forall|i: int| 0 <= i < start.len() && i < 2 ==> rank_of_char(#[trigger] start[i]) is Some,
        forall|i: int| 0 <= i < end.len() && i < 2 ==> rank_of_char(#[trigger] end[i]) is Some,
        (start.len() == 2 && end.len() == 2 && start[0] == start[1] && end[0] == end[1]) || (
        start.len() == 3 && end.len() == 3 && start[0] == end[0] && start[2] == end[2] && (
        start[2] == 's' || start[2] == 'S' || start[2] == 'o' || start[2] == 'O')),
    ensures
        dash_spec(start, end) == dash_spec(end, start),
{
    assert(rank_of_char(start[0]) is Some);
    assert(rank_of_char(end[0]) is Some);
    if start.len() == 3 {
        assert(rank_of_char(start[1]) is Some);
        assert(rank_of_char(end[1]) is Some);
    }
}

/// The canonical hand of the high rank `fixed` with the kicker `k`, suited or offsuit.
spec fn kicker_hand(fixed: int, k: int, suited: bool) -> CanonicalHand {
    if suited {
        CanonicalHand::Suited(rank_from_index(fixed as u32), rank_from_index(k as u32))
    } else {
        CanonicalHand::Offsuit(rank_from_index(fixed as u32), rank_from_index(k as u32))
    }
}

proof fn lemma_kicker_combos_layout(fixed: int, lo: int, hi: int, suited: bool)
    requires
        0 <= lo,
        lo <= hi + 1,
        hi < fixed < 13,
    ensures
        kicker_combos(fixed, lo, hi, suited).len() == (hi - lo + 1) * (if suited { 4int } else { 12int }),
        forall|j: int| 0 <= j < kicker_combos(fixed, lo, hi, suited).len() ==> #[trigger] kicker_combos(
            fixed,
            lo,
            hi,
            suited,
        )[j] == canonical_combos(kicker_hand(fixed, lo + j / (if suited { 4int } else { 12int }), suited))[j
            % (if suited { 4int } else { 12int })],
    decreases hi - lo + 1,
{
    let n: int = if suited { 4 } else { 12 };
    if lo <= hi {
        lemma_kicker_combos_layout(fixed, lo + 1, hi, suited);
        let h = kicker_hand(fixed, lo, suited);
        assert(canonical_combos(h).len() == n);
        let v = kicker_combos(fixed, lo, hi, suited);
        let rest = kicker_combos(fixed, lo + 1, hi, suited);
        assert(v == canonical_combos(h) + rest);
        assert forall|j: int| 0 <= j < v.len() implies #[trigger] v[j] == canonical_combos(
            kicker_hand(fixed, lo + j / n, suited),
        )[j % n] by {
            if j < n {
                assert(j / n == 0 && j % n == j) by (nonlinear_arith)
                    requires
                        0 <= j < n,
                        n == 4 || n == 12,
                ;
            } else {
                assert(v[j] == rest[j - n]);
                assert((j - n) / n == j / n - 1 && (j - n) % n == j % n) by (nonlinear_arith)
                    requires
                        n <= j,
                        n == 4 || n == 12,
                ;
            }
        }
    }
}

/// The combos of `fixed` with the kickers `lo..=hi` (all below `fixed`), suited or
/// offsuit: `4` (suited) or `12` (offsuit) per kicker, no combo twice, each two cards of
/// which one has rank `fixed` and the other a rank in `lo..=hi`, sharing a suit exactly
/// when suited.
#[verifier::spinoff_prover]
pub proof fn lemma_kicker_group(fixed: int, lo: int, hi: int, suited: bool)
    requires
        0 <= lo,
        lo <= hi + 1,
        hi < fixed < 13,
    ensures
        ({
            let v = kicker_combos(fixed, lo, hi, suited);
            &&& v.len() == (hi - lo + 1) * (if suited { 4int } else { 12int })
            &&& forall|i: int, j: int| 0 <= i < j < v.len() ==> #[trigger] v[i] != #[trigger] v[j]
            &&& forall|j: int, c1: Card, c2: Card|
                0 <= j < v.len() && c1.valid() && c2.valid() && c1.index_of() != c2.index_of()
                    && #[trigger] pair_combo(c1.index_of(), c2.index_of()) == #[trigger] v[j] ==> {
                    let (a, b) = (c1.rank_idx() as int, c2.rank_idx() as int);
                    &&& (a == fixed && lo <= b <= hi) || (b == fixed && lo <= a <= hi)
                    &&& (c1.suit_idx() == c2.suit_idx()) == suited
                }
        }),
{
    let n: int = if suited { 4 } else { 12 };
    let v = kicker_combos(fixed, lo, hi, suited);
    lemma_kicker_combos_layout(fixed, lo, hi, suited);
    assert forall|j: int, c1: Card, c2: Card|
        0 <= j < v.len() && c1.valid() && c2.valid() && c1.index_of() != c2.index_of()
            && #[trigger] pair_combo(c1.index_of(), c2.index_of()) == #[trigger] v[j] implies {
            let (a, b) = (c1.rank_idx() as int, c2.rank_idx() as int);
            &&& (a == fixed && lo <= b <= hi) || (b == fixed && lo <= a <= hi)
            &&& (c1.suit_idx() == c2.suit_idx()) == suited
        } by {
        let k = lo + j / n;
        assert(0 <= j / n <= hi - lo) by (nonlinear_arith)
            requires
                0 <= j < (hi - lo + 1) * n,
                n == 4 || n == 12,
        ;
        assert(0 <= j % n < n) by (nonlinear_arith)
            requires
                n == 4 || n == 12,
        ;
        let h = kicker_hand(fixed, k, suited);
        assert(high_idx(h) == fixed && low_idx(h) == k);
        lemma_canonical_combos_distinct(h);
        lemma_canonical_combo_cards(h, j % n, c1, c2);
    }
    assert forall|i: int, j: int| 0 <= i < j < v.len() implies #[trigger] v[i] != #[trigger] v[j] by {
        assert(0 <= i / n <= hi - lo && 0 <= j / n <= hi - lo) by (nonlinear_arith)
            requires
                0 <= i < (hi - lo + 1) * n,
                0 <= j < (hi - lo + 1) * n,
                n == 4 || n == 12,
        ;
        assert(0 <= i % n < n && 0 <= j % n < n) by (nonlinear_arith)
            requires
                n == 4 || n == 12,
        ;
        let hi_ = kicker_hand(fixed, lo + i / n, suited);
        let hj = kicker_hand(fixed, lo + j / n, suited);
        assert(high_idx(hi_) == fixed && low_idx(hi_) == lo + i / n);
        assert(high_idx(hj) == fixed && low_idx(hj) == lo + j / n);
        lemma_canonical_combos_distinct(hi_);
        lemma_canonical_combos_distinct(hj);
        if v[i] == v[j] {
            lemma_canonical_unique(hi_, hj, i % n, j % n);
            assert(low_idx(hi_) == low_idx(hj));
            assert(i / n == j / n);
            assert(i % n != j % n) by (nonlinear_arith)
                requires
                    i != j,
                    i / n == j / n,
                    n == 4 || n == 12,
            ;
        }
    }
}

/// Plus notation on two ranks (`KTs+`, `KTo+`, `ATs+`, ...): with high rank `X` and
/// starting kicker `Y < X`, the group is every suited (or offsuit) combination of an `X`
/// with a kicker of rank from `Y` up to one below `X`, each once: `4 * (X - Y)` suited or
/// `12 * (X - Y)` offsuit combos, each two cards of which one has rank `X` and the other a
/// rank in `Y..X`, sharing a suit exactly when the group is suited.
pub proof fn lemma_plus_kicker_group(x: char, y: char, s: char, byte_len: int)
    requires
        rank_of_char(x) is Some,
        rank_of_char(y) is Some,
        rank_of_char(x)->Some_0 > rank_of_char(y)->Some_0,
        s == 's' || s == 'S' || s == 'o' || s == 'O',
    ensures
        hand_group_spec(seq![x, y, s, '+'], byte_len) is Ok,
        ({
            let v = hand_group_spec(seq![x, y, s, '+'], byte_len)->Ok_0;
            let big = rank_of_char(x)->Some_0 as int;
            let small = rank_of_char(y)->Some_0 as int;
            let suited = s == 's' || s == 'S';
            &&& v.len() == (big - small) * (if suited { 4int } else { 12int })
            &&& forall|i: int, j: int| 0 <= i < j < v.len() ==> #[trigger] v[i] != #[trigger] v[j]
            &&& forall|j: int, c1: Card, c2: Card|
                0 <= j < v.len() && c1.valid() && c2.valid() && c1.index_of() != c2.index_of()
                    && #[trigger] pair_combo(c1.index_of(), c2.index_of()) == #[trigger] v[j] ==> {
                    let (a, b) = (c1.rank_idx() as int, c2.rank_idx() as int);
                    &&& (a == big && small <= b < big) || (b == big && small <= a < big)
                    &&& (c1.suit_idx() == c2.suit_idx()) == suited
                }
        }),
{
    let cs = seq![x, y, s, '+'];
    let big = rank_of_char(x)->Some_0 as int;
    let small = rank_of_char(y)->Some_0 as int;
    let suited = s == 's' || s == 'S';
    assert(first_index_of(cs, '-') < 0) by {
        crate::text::lemma_first_index_of(cs, '-');
        assert(cs[0] != '-' && cs[1] != '-' && cs[2] != '-' && cs[3] != '-');
    }
    assert(parse_card_chars(cs[0], cs[1]) is Err);
    assert(cs.drop_last() =~= seq![x, y, s]);
    assert(cs.last() == '+');
    let v = kicker_combos(big, small, big - 1, suited);
    assert(hand_group_spec(cs, byte_len) == Ok::<Seq<int>, RangeError>(v));
    lemma_kicker_group(big, small, big - 1, suited);
}

proof fn lemma_pair_combos_layout(lo: int, hi: int)
    requires
        0 <= lo,
        lo <= hi + 1,
        hi < 13,
    ensures
        pair_combos(lo, hi).len() == (hi - lo + 1) * 6,
        forall|j: int| 0 <= j < pair_combos(lo, hi).len() ==> #[trigger] pair_combos(lo, hi)[j] == canonical_combos(
            CanonicalHand::Pair(rank_from_index((lo + j / 6) as u32)),
        )[j % 6],
    decreases hi - lo + 1,
{
    if lo <= hi {
        lemma_pair_combos_layout(lo + 1, hi);
        let h = CanonicalHand::Pair(rank_from_index(lo as u32));
        let v = pair_combos(lo, hi);
        let rest = pair_combos(lo + 1, hi);
        assert(v == canonical_combos(h) + rest);
        assert forall|j: int| 0 <= j < v.len() implies #[trigger] v[j] == canonical_combos(
            CanonicalHand::Pair(rank_from_index((lo + j / 6) as u32)),
        )[j % 6] by {
            if j >= 6 {
                assert(v[j] == rest[j - 6]);
                assert((j - 6) / 6 == j / 6 - 1 && (j - 6) % 6 == j % 6);
            }
        }
    }
}

/// The pocket pairs of ranks `lo..=hi`: six combos per rank, no combo twice, each two
/// cards of one rank in `lo..=hi`.
#[verifier::spinoff_prover]
pub proof fn lemma_pair_group(lo: int, hi: int)
    requires
        0 <= lo,
        lo <= hi + 1,
        hi < 13,
    ensures
        ({
            let v = pair_combos(lo, hi);
            &&& v.len() == (hi - lo + 1) * 6
            &&& forall|i: int, j: int| 0 <= i < j < v.len() ==> #[trigger] v[i] != #[trigger] v[j]
            &&& forall|j: int, c1: Card, c2: Card|
                0 <= j < v.len() && c1.valid() && c2.valid() && c1.index_of() != c2.index_of()
                    && #[trigger] pair_combo(c1.index_of(), c2.index_of()) == #[trigger] v[j] ==> c1.rank_idx()
                    == c2.rank_idx() && lo <= c1.rank_idx() <= hi
        }),
{
    let v = pair_combos(lo, hi);
    lemma_pair_combos_layout(lo, hi);
    assert forall|j: int, c1: Card, c2: Card|
        0 <= j < v.len() && c1.valid() && c2.valid() && c1.index_of() != c2.index_of()
            && #[trigger] pair_combo(c1.index_of(), c2.index_of()) == #[trigger] v[j] implies c1.rank_idx()
            == c2.rank_idx() && lo <= c1.rank_idx() <= hi by {
        let h = CanonicalHand::Pair(rank_from_index((lo + j / 6) as u32));
        assert(high_idx(h) == lo + j / 6 && low_idx(h) == lo + j / 6);
        lemma_canonical_combos_distinct(h);
        lemma_canonical_combo_cards(h, j % 6, c1, c2);
    }
    assert forall|i: int, j: int| 0 <= i < j < v.len() implies #[trigger] v[i] != #[trigger] v[j] by {
        let hi_ = CanonicalHand::Pair(rank_from_index((lo + i / 6) as u32));
        let hj = CanonicalHand::Pair(rank_from_index((lo + j / 6) as u32));
        assert(high_idx(hi_) == lo + i / 6 && high_idx(hj) == lo + j / 6);
        lemma_canonical_combos_distinct(hi_);
        lemma_canonical_combos_distinct(hj);
        if v[i] == v[j] {
            lemma_canonical_unique(hi_, hj, i % 6, j % 6);
            assert(high_idx(hi_) == high_idx(hj));
        }
    }
}

/// Plus notation on a pair (`TT+`): every pocket pair from that rank up to aces, six
/// combos per rank, no combo twice.
pub proof fn lemma_plus_pair_group(x: char, byte_len: int)
    requires
        rank_of_char(x) is Some,
    ensures
        hand_group_spec(seq![x, x, '+'], byte_len) is Ok,
        ({
            let v = hand_group_spec(seq![x, x, '+'], byte_len)->Ok_0;
            let r = rank_of_char(x)->Some_0 as int;
            &&& v.len() == (13 - r) * 6
            &&& forall|i: int, j: int| 0 <= i < j < v.len() ==> #[trigger] v[i] != #[trigger] v[j]
            &&& forall|j: int, c1: Card, c2: Card|
                0 <= j < v.len() && c1.valid() && c2.valid() && c1.index_of() != c2.index_of()
                    && #[trigger] pair_combo(c1.index_of(), c2.index_of()) == #[trigger] v[j] ==> c1.rank_idx()
                    == c2.rank_idx() && r <= c1.rank_idx()
        }),
{
    let cs = seq![x, x, '+'];
    let r = rank_of_char(x)->Some_0 as int;
    assert(first_index_of(cs, '-') < 0) by {
        crate::text::lemma_first_index_of(cs, '-');
        assert(cs[0] != '-' && cs[1] != '-' && cs[2] != '-');
    }
    assert(cs.drop_last() =~= seq![x, x]);
    assert(cs.last() == '+');
    assert(hand_group_spec(cs, byte_len) == Ok::<Seq<int>, RangeError>(pair_combos(r, 12)));
    lemma_pair_group(r, 12);
}

/// Dash notation between two kicker hands of one high rank (`A5s-A2s`, `KJo-K9o`): every
/// suited (or offsuit) combination of the high rank with a kicker between the two ends,
/// both included, each once.
pub proof fn lemma_dash_kicker_group(x: char, k1: char, k2: char, s: char)
    requires
        rank_of_char(x) is Some,
        rank_of_char(k1) is Some,
        rank_of_char(k2) is Some,
        rank_of_char(k1)->Some_0 < rank_of_char(x)->Some_0,
        rank_of_char(k2)->Some_0 < rank_of_char(x)->Some_0,
        s == 's' || s == 'S' || s == 'o' || s == 'O',
    ensures
        dash_spec(seq![x, k1, s], seq![x, k2, s]) is Ok,
        ({
            let v = dash_spec(seq![x, k1, s], seq![x, k2, s])->Ok_0;
            let big = rank_of_char(x)->Some_0 as int;
            let a = rank_of_char(k1)->Some_0 as int;
            let b = rank_of_char(k2)->Some_0 as int;
            let lo = if a < b { a } else { b };
            let hi = if a < b { b } else { a };
            let suited = s == 's' || s == 'S';
            &&& v.len() == (hi - lo + 1) * (if suited { 4int } else { 12int })
            &&& forall|i: int, j: int| 0 <= i < j < v.len() ==> #[trigger] v[i] != #[trigger] v[j]
            &&& forall|j: int, c1: Card, c2: Card|
                0 <= j < v.len() && c1.valid() && c2.valid() && c1.index_of() != c2.index_of()
                    && #[trigger] pair_combo(c1.index_of(), c2.index_of()) == #[trigger] v[j] ==> {
                    let (ra, rb) = (c1.rank_idx() as int, c2.rank_idx() as int);
                    &&& (ra == big && lo <= rb <= hi) || (rb == big && lo <= ra <= hi)
                    &&& (c1.suit_idx() == c2.suit_idx()) == suited
                }
        }),
{
    let big = rank_of_char(x)->Some_0 as int;
    let a = rank_of_char(k1)->Some_0 as int;
    let b = rank_of_char(k2)->Some_0 as int;
    let lo = if a < b { a } else { b };
    let hi = if a < b { b } else { a };
    let suited = s == 's' || s == 'S';
    assert(dash_spec(seq![x, k1, s], seq![x, k2, s]) == Ok::<Seq<int>, RangeError>(
        kicker_combos(big, lo, hi, suited),
    ));
    lemma_kicker_group(big, lo, hi, suited);
}

/// Dash notation between two pairs (`99-66`): every pocket pair between the two ranks,
/// both included, each once.
pub proof fn lemma_dash_pair_group(x: char, y: char)
    requires
        rank_of_char(x) is Some,
        rank_of_char(y) is Some,
    ensures
        dash_spec(seq![x, x], seq![y, y]) is Ok,
        ({
            let v = dash_spec(seq![x, x], seq![y, y])->Ok_0;
            let a = rank_of_char(x)->Some_0 as int;
            let b = rank_of_char(y)->Some_0 as int;
            let lo = if a < b { a } else { b };
            let hi = if a < b { b } else { a };
            &&& v.len() == (hi - lo + 1) * 6
            &&& forall|i: int, j: int| 0 <= i < j < v.len() ==> #[trigger] v[i] != #[trigger] v[j]
            &&& forall|j: int, c1: Card, c2: Card|
                0 <= j < v.len() && c1.valid() && c2.valid() && c1.index_of() != c2.index_of()
                    && #[trigger] pair_combo(c1.index_of(), c2.index_of()) == #[trigger] v[j] ==> c1.rank_idx()
                    == c2.rank_idx() && lo <= c1.rank_idx() <= hi
        }),
{
    let a = rank_of_char(x)->Some_0 as int;
    let b = rank_of_char(y)->Some_0 as int;
    let lo = if a < b { a } else { b };
    let hi = if a < b { b } else { a };
    assert(dash_spec(seq![x, x], seq![y, y]) == Ok::<Seq<int>, RangeError>(pair_combos(lo, hi)));
    lemma_pair_group(lo, hi);
}

} // verus!


