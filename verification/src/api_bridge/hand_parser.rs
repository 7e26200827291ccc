//! Reading a tournament hand history (PokerStars-style text) into a structured record.
//!
//! The reader goes line by line. Each line either sets a field of the hand (its id, the
//! tournament id, the blinds, the button, a seat, the hero's cards, the board) or, inside a
//! betting round, records a player's action. Amounts are kept as the literal text that
//! `f64::from_str` accepts; a caller that wants numbers converts them.
use vstd::prelude::*;
use crate::card::{Card, parse_card_chars};
use crate::orchestrator::Street;
use crate::orchestrator::event_bus::street_order;
use crate::text::{
    char_vecs_view, chars_between, contains_sub, contains_substr, find_char, find_last_char,
    find_sub, find_substr, first_index_of, has_prefix, is_float_text, is_float_text_chars,
    last_index_of, lines_of, parse_u64_chars, parse_u64_spec, parse_usize_chars,
    parse_usize_spec, split_lines, split_words, starts_with, str_to_chars, string_from_chars,
    trim_bounds, trim_seq, trimmed_between, words, chars_eq, lemma_words_len, pos_or_none,
};

verus! {

/// A betting action read from a hand history. An amount is the literal text of the number
/// the line gives, or `None` where the line gives none that reads as a number.
#[derive(Debug, Clone, PartialEq, Eq)]
pub enum ParsedAction {
    Fold,
    Check,
    Call(Option<String>),
    Bet(Option<String>),
    Raise(Option<String>),
    AllIn(Option<String>),
}

/// The content of a `ParsedAction`.
pub ghost enum ActionSpec {
    Fold,
    Check,
    Call(Option<Seq<char>>),
    Bet(Option<Seq<char>>),
    Raise(Option<Seq<char>>),
    AllIn(Option<Seq<char>>),
}

/// The content of an optional string.
pub open spec fn opt_text(o: Option<String>) -> Option<Seq<char>> {
    match o {
        Some(s) => Some(s@),
        None => None,
    }
}

/// The content of an optional character vector.
pub open spec fn opt_chars(o: Option<Vec<char>>) -> Option<Seq<char>> {
    match o {
        Some(s) => Some(s@),
        None => None,
    }
}

/// The content of an action.
pub open spec fn action_view(a: ParsedAction) -> ActionSpec {
    match a {
        ParsedAction::Fold => ActionSpec::Fold,
        ParsedAction::Check => ActionSpec::Check,
        ParsedAction::Call(x) => ActionSpec::Call(opt_text(x)),
        ParsedAction::Bet(x) => ActionSpec::Bet(opt_text(x)),
        ParsedAction::Raise(x) => ActionSpec::Raise(opt_text(x)),
        ParsedAction::AllIn(x) => ActionSpec::AllIn(opt_text(x)),
    }
}

/// A card as its (rank index, suit index).
pub open spec fn card_view(c: Card) -> (u32, u32) {
    (c.rank_idx(), c.suit_idx())
}

/// A pair of cards as their indices.
pub open spec fn cards2_view(c: [Card; 2]) -> ((u32, u32), (u32, u32)) {
    (card_view(c@[0]), card_view(c@[1]))
}

/// The content of an optional pair of cards.
pub open spec fn opt_cards2(o: Option<[Card; 2]>) -> Option<((u32, u32), (u32, u32))> {
    match o {
        Some(c) => Some(cards2_view(c)),
        None => None,
    }
}

/// A seat of the hand: its number, the player's name and the chip count's text.
pub type SeatSpec = (usize, Seq<char>, Seq<char>);

/// What the reader knows after some lines of a hand history.
#[verifier::ext_equal]
pub ghost struct ScanState {
    pub hand_id: u64,
    pub tournament_id: Option<u64>,
    pub sb: Option<Seq<char>>,
    pub bb: Option<Seq<char>>,
    pub ante: Option<Seq<char>>,
    pub button: usize,
    pub hero_name: Option<Seq<char>>,
    pub hero_cards: Option<((u32, u32), (u32, u32))>,
    pub seats: Seq<SeatSpec>,
    pub actions: Seq<(Seq<char>, ActionSpec, Street)>,
    pub board: Seq<(u32, u32)>,
    pub preflop: bool,
    pub flop: bool,
    pub turn: bool,
    pub river: bool,
    pub showdown: bool,
}

/// The state before the first line: hand 0, seat 1 on the button, nothing else known.
pub open spec fn initial_scan() -> ScanState {
    ScanState {
        hand_id: 0,
        tournament_id: None,
        sb: None,
        bb: None,
        ante: None,
        button: 1,
        hero_name: None,
        hero_cards: None,
        seats: Seq::empty(),
        actions: Seq::empty(),
        board: Seq::empty(),
        preflop: false,
        flop: false,
        turn: false,
        river: false,
        showdown: false,
    }
}

/// `PokerStars Hand #`
pub open spec fn stars_header() -> Seq<char> {
    "PokerStars Hand #"@
}

/// `Hand #`
pub open spec fn plain_header() -> Seq<char> {
    "Hand #"@
}

/// `Tournament #`
pub open spec fn tournament_tag() -> Seq<char> {
    "Tournament #"@
}

/// `is the button`
pub open spec fn button_tag() -> Seq<char> {
    "is the button"@
}

/// `Seat #`
pub open spec fn button_seat_tag() -> Seq<char> {
    "Seat #"@
}

/// `Seat `
pub open spec fn seat_prefix() -> Seq<char> {
    "Seat "@
}

/// ` in chips)`
pub open spec fn chips_tag() -> Seq<char> {
    " in chips)"@
}

/// `posts the ante`
pub open spec fn ante_tag() -> Seq<char> {
    "posts the ante"@
}

/// `posts small blind`
pub open spec fn small_blind_tag() -> Seq<char> {
    "posts small blind"@
}

/// `posts big blind`
pub open spec fn big_blind_tag() -> Seq<char> {
    "posts big blind"@
}

/// `Dealt to `
pub open spec fn dealt_prefix() -> Seq<char> {
    "Dealt to "@
}

/// `*** HOLE CARDS ***`
pub open spec fn hole_cards_tag() -> Seq<char> {
    "*** HOLE CARDS ***"@
}

/// `*** FLOP ***`
pub open spec fn flop_tag() -> Seq<char> {
    "*** FLOP ***"@
}

/// `*** TURN ***`
pub open spec fn turn_tag() -> Seq<char> {
    "*** TURN ***"@
}

/// `*** RIVER ***`
pub open spec fn river_tag() -> Seq<char> {
    "*** RIVER ***"@
}

/// `*** SHOW DOWN ***`
pub open spec fn showdown_tag() -> Seq<char> {
    "*** SHOW DOWN ***"@
}

/// `*** SUMMARY ***`
pub open spec fn summary_tag() -> Seq<char> {
    "*** SUMMARY ***"@
}

/// `and is all-in`
pub open spec fn all_in_tag() -> Seq<char> {
    "and is all-in"@
}

/// The number between `#` and the next `:` of a header line, if it reads as a `u64`.
pub open spec fn header_hand_id(line: Seq<char>) -> Option<u64> {
    let h = first_index_of(line, '#');
    if h < 0 {
        None
    } else {
        let rest = line.skip(h + 1);
        let c = first_index_of(rest, ':');
        if c < 0 {
            None
        } else {
            parse_u64_spec(trim_seq(rest.take(c)))
        }
    }
}

/// The number between `Tournament #` and the next `,` of a header line, if it reads as a
/// `u64`.
pub open spec fn header_tournament(line: Seq<char>) -> Option<u64> {
    let t = find_sub(line, tournament_tag());
    if t < 0 {
        None
    } else {
        let rest = line.skip(t + tournament_tag().len());
        let c = first_index_of(rest, ',');
        if c < 0 {
            None
        } else {
            parse_u64_spec(trim_seq(rest.take(c)))
        }
    }
}

/// The small and big blind of a header line: the first two `/`-separated pieces of the
/// text between its last `(` and its last `)`, when both read as numbers.
pub open spec fn header_blinds(line: Seq<char>) -> Option<(Seq<char>, Seq<char>)> {
    let o = last_index_of(line, '(');
    let c = last_index_of(line, ')');
    if o < 0 || c < 0 || o >= c {
        None
    } else {
        let inner = line.subrange(o + 1, c);
        let s1 = first_index_of(inner, '/');
        if s1 < 0 {
            None
        } else {
            let after = inner.skip(s1 + 1);
            let s2 = first_index_of(after, '/');
            let p0 = trim_seq(inner.take(s1));
            let p1 = trim_seq(if s2 < 0 { after } else { after.take(s2) });
            if is_float_text(p0) && is_float_text(p1) {
                Some((p0, p1))
            } else {
                None
            }
        }
    }
}

/// The button seat of a table line: the number after `Seat #`, up to the next space.
pub open spec fn button_of(line: Seq<char>) -> Option<usize> {
    let p = find_sub(line, button_seat_tag());
    if p < 0 {
        None
    } else {
        let rest = line.skip(p + button_seat_tag().len());
        let sp = first_index_of(rest, ' ');
        if sp < 0 {
            None
        } else {
            parse_usize_spec(trim_seq(rest.take(sp)))
        }
    }
}

/// The seat a `Seat N: Name (C in chips)` line defines.
pub open spec fn seat_of(line: Seq<char>) -> Option<SeatSpec> {
    let colon = first_index_of(line, ':');
    if colon < seat_prefix().len() {
        None
    } else {
        match parse_usize_spec(trim_seq(line.subrange(seat_prefix().len() as int, colon))) {
            None => None,
            Some(seat) => {
                let after = trim_seq(line.skip(colon + 1));
                let open = last_index_of(after, '(');
                if open < 0 {
                    None
                } else {
                    let name = trim_seq(after.take(open));
                    let chip_part = after.skip(open + 1);
                    let ip = find_sub(chip_part, chips_tag());
                    if ip < 0 {
                        None
                    } else {
                        let chips = trim_seq(chip_part.take(ip));
                        if is_float_text(chips) {
                            Some((seat, name, chips))
                        } else {
                            None
                        }
                    }
                }
            },
        }
    }
}

/// Position of the seat numbered `k`, or -1.
pub open spec fn seat_pos(seats: Seq<SeatSpec>, k: usize) -> int
    decreases seats.len(),
{
    if seats.len() == 0 {
        -1
    } else if seats.last().0 == k {
        seats.len() - 1
    } else {
        seat_pos(seats.drop_last(), k)
    }
}

/// The seats with `e` recorded under its number, replacing an earlier record of that seat.
pub open spec fn seat_insert(seats: Seq<SeatSpec>, e: SeatSpec) -> Seq<SeatSpec> {
    let i = seat_pos(seats, e.0);
    if i >= 0 {
        seats.update(i, e)
    } else {
        seats.push(e)
    }
}

/// The last word of a line, when it reads as a number.
pub open spec fn last_amount(line: Seq<char>) -> Option<Seq<char>> {
    let ws = words(line);
    if ws.len() > 0 && is_float_text(ws.last()) {
        Some(ws.last())
    } else {
        None
    }
}

/// The card a two-character word names.
pub open spec fn card_of_word(w: Seq<char>) -> Option<(u32, u32)> {
    if w.len() == 2 && parse_card_chars(w[0], w[1]) is Ok {
        Some(parse_card_chars(w[0], w[1])->Ok_0)
    } else {
        None
    }
}

/// The cards named by the words of `ws` that name cards, in order.
pub open spec fn cards_of_words(ws: Seq<Seq<char>>) -> Seq<(u32, u32)>
    decreases ws.len(),
{
    if ws.len() == 0 {
        Seq::empty()
    } else {
        let prev = cards_of_words(ws.drop_last());
        match card_of_word(ws.last()) {
            Some(c) => prev.push(c),
            None => prev,
        }
    }
}

/// The first `]` of `s` comes after its first `[`, where both occur.
pub open spec fn brackets_ordered(s: Seq<char>) -> bool {
    let o = first_index_of(s, '[');
    let c = first_index_of(s, ']');
    o >= 0 && c >= 0 ==> c > o
}

/// The hero's name and, where the brackets hold exactly two cards, the hero's cards, of
/// the text after `Dealt to `.
pub open spec fn dealt_of(rest: Seq<char>) -> Option<(Seq<char>, Option<((u32, u32), (u32, u32))>)> {
    let o = first_index_of(rest, '[');
    if o < 0 {
        None
    } else {
        let name = trim_seq(rest.take(o));
        let c = first_index_of(rest, ']');
        if c <= o {
            Some((name, None))
        } else {
            let parts = words(rest.subrange(o + 1, c));
            if parts.len() == 2 && card_of_word(parts[0]) is Some && card_of_word(parts[1]) is Some {
                Some((name, Some((card_of_word(parts[0])->Some_0, card_of_word(parts[1])->Some_0))))
            } else {
                Some((name, None))
            }
        }
    }
}

/// The cards between the first `[` and the first `]` of a flop line.
pub open spec fn board_cards_of(line: Seq<char>) -> Seq<(u32, u32)> {
    let o = first_index_of(line, '[');
    let c = first_index_of(line, ']');
    if o < 0 || c <= o {
        Seq::empty()
    } else {
        cards_of_words(words(line.subrange(o + 1, c)))
    }
}

/// The card between the last `[` and the last `]` of a turn or river line.
pub open spec fn bracket_card_of(line: Seq<char>) -> Option<(u32, u32)> {
    let o = last_index_of(line, '[');
    let c = last_index_of(line, ']');
    if o < 0 || c < 0 || o >= c {
        None
    } else {
        card_of_word(trim_seq(line.subrange(o + 1, c)))
    }
}

/// The amount at word `k`, when there is one that reads as a number.
pub open spec fn amount_at(parts: Seq<Seq<char>>, k: int) -> Option<Seq<char>> {
    if 0 <= k < parts.len() && is_float_text(parts[k]) {
        Some(parts[k])
    } else {
        None
    }
}

/// Position of the first word `w` in `parts`, or -1.
pub open spec fn word_index(parts: Seq<Seq<char>>, w: Seq<char>) -> int
    decreases parts.len(),
{
    if parts.len() == 0 {
        -1
    } else if parts[0] == w {
        0
    } else {
        let r = word_index(parts.drop_first(), w);
        if r < 0 {
            -1
        } else {
            r + 1
        }
    }
}

proof fn lemma_word_index(parts: Seq<Seq<char>>, w: Seq<char>)
    ensures
        -1 <= word_index(parts, w) < parts.len(),
    decreases parts.len(),
{
    if parts.len() > 0 {
        lemma_word_index(parts.drop_first(), w);
    }
}

/// The action an action text (`folds`, `checks`, `calls 60`, `bets 120`,
/// `raises 60 to 90`, ... `and is all-in`) describes.
pub open spec fn action_of(text: Seq<char>) -> Option<ActionSpec> {
    let parts = words(text);
    if parts.len() == 0 {
        None
    } else if parts[0] == "folds"@ {
        Some(ActionSpec::Fold)
    } else if parts[0] == "checks"@ {
        Some(ActionSpec::Check)
    } else if parts[0] == "calls"@ {
        Some(ActionSpec::Call(amount_at(parts, 1)))
    } else if parts[0] == "bets"@ {
        let amt = amount_at(parts, 1);
        if contains_sub(text, all_in_tag()) {
            Some(ActionSpec::AllIn(amt))
        } else {
            Some(ActionSpec::Bet(amt))
        }
    } else if parts[0] == "raises"@ {
        let t = word_index(parts, "to"@);
        let amt = if t >= 0 { amount_at(parts, t + 1) } else { amount_at(parts, 1) };
        if contains_sub(text, all_in_tag()) {
            Some(ActionSpec::AllIn(amt))
        } else {
            Some(ActionSpec::Raise(amt))
        }
    } else {
        None
    }
}

/// The actor and action of a `Name: action` line.
pub open spec fn action_line_of(line: Seq<char>) -> Option<(Seq<char>, ActionSpec)> {
    let c = first_index_of(line, ':');
    if c < 0 {
        None
    } else {
        match action_of(trim_seq(line.skip(c + 1))) {
            Some(a) => Some((trim_seq(line.take(c)), a)),
            None => None,
        }
    }
}

/// The street a betting line belongs to.
pub open spec fn current_street(st: ScanState) -> Street {
    if st.river {
        Street::River
    } else if st.turn {
        Street::Turn
    } else if st.flop {
        Street::Flop
    } else {
        Street::Preflop
    }
}

/// A header line (`PokerStars Hand #...` or `Hand #...`).
pub open spec fn is_header_line(line: Seq<char>) -> bool {
    has_prefix(line, stars_header()) || has_prefix(line, plain_header())
}

/// A seat line (`Seat N: ... in chips)`).
pub open spec fn is_seat_line(line: Seq<char>) -> bool {
    has_prefix(line, seat_prefix()) && contains_sub(line, chips_tag())
}

/// What one line of a hand history changes.
pub open spec fn step(st: ScanState, raw: Seq<char>) -> ScanState {
    let line = trim_seq(raw);
    if line.len() == 0 {
        st
    } else if is_header_line(line) {
        let blinds = header_blinds(line);
        ScanState {
            hand_id: match header_hand_id(line) {
                Some(v) => v,
                None => st.hand_id,
            },
            tournament_id: match header_tournament(line) {
                Some(v) => Some(v),
                None => st.tournament_id,
            },
            sb: match blinds {
                Some(b) => Some(b.0),
                None => st.sb,
            },
            bb: match blinds {
                Some(b) => Some(b.1),
                None => st.bb,
            },
            ..st
        }
    } else if contains_sub(line, button_tag()) {
        match button_of(line) {
            Some(b) => ScanState { button: b, ..st },
            None => st,
        }
    } else if is_seat_line(line) {
        match seat_of(line) {
            Some(e) => ScanState { seats: seat_insert(st.seats, e), ..st },
            None => st,
        }
    } else if contains_sub(line, ante_tag()) {
        match last_amount(line) {
            Some(a) => ScanState { ante: Some(a), ..st },
            None => st,
        }
    } else if contains_sub(line, small_blind_tag()) {
        match last_amount(line) {
            Some(a) => ScanState { sb: Some(a), ..st },
            None => st,
        }
    } else if contains_sub(line, big_blind_tag()) {
        match last_amount(line) {
            Some(a) => ScanState { bb: Some(a), ..st },
            None => st,
        }
    } else if has_prefix(line, dealt_prefix()) {
        match dealt_of(line.skip(dealt_prefix().len() as int)) {
            Some((name, cards)) => ScanState {
                hero_name: Some(name),
                hero_cards: match cards {
                    Some(c) => Some(c),
                    None => st.hero_cards,
                },
                ..st
            },
            None => st,
        }
    } else if has_prefix(line, hole_cards_tag()) {
        ScanState { preflop: true, ..st }
    } else if has_prefix(line, flop_tag()) {
        ScanState { preflop: false, flop: true, board: st.board + board_cards_of(line), ..st }
    } else if has_prefix(line, turn_tag()) {
        ScanState {
            flop: false,
            turn: true,
            board: match bracket_card_of(line) {
                Some(c) => st.board.push(c),
                None => st.board,
            },
            ..st
        }
    } else if has_prefix(line, river_tag()) {
        ScanState {
            turn: false,
            river: true,
            board: match bracket_card_of(line) {
                Some(c) => st.board.push(c),
                None => st.board,
            },
            ..st
        }
    } else if has_prefix(line, showdown_tag()) || has_prefix(line, summary_tag()) {
        ScanState { river: false, showdown: true, ..st }
    } else if (st.preflop || st.flop || st.turn || st.river) && !st.showdown {
        match action_line_of(line) {
            Some((actor, a)) => ScanState {
                actions: st.actions.push((actor, a, current_street(st))),
                ..st
            },
            None => st,
        }
    } else {
        st
    }
}

/// A line on which the reader does not fail: where a `Dealt to` or a flop line has both
/// brackets, the first `]` comes after the first `[`.
pub open spec fn line_readable(raw: Seq<char>) -> bool {
    let line = trim_seq(raw);
    if line.len() == 0 || is_header_line(line) || contains_sub(line, button_tag()) || is_seat_line(
        line,
    ) || contains_sub(line, ante_tag()) || contains_sub(line, small_blind_tag()) || contains_sub(
        line,
        big_blind_tag(),
    ) {
        true
    } else if has_prefix(line, dealt_prefix()) {
        brackets_ordered(line.skip(dealt_prefix().len() as int))
    } else if has_prefix(line, hole_cards_tag()) {
        true
    } else if has_prefix(line, flop_tag()) {
        brackets_ordered(line)
    } else {
        true
    }
}

/// The state after the given lines.
pub open spec fn scan_lines(lines: Seq<Seq<char>>) -> ScanState
    decreases lines.len(),
{
    if lines.len() == 0 {
        initial_scan()
    } else {
        step(scan_lines(lines.drop_last()), lines.last())
    }
}

/// Every line of `text` is readable.
pub open spec fn text_readable(text: Seq<char>) -> bool {
    forall|i: int| 0 <= i < lines_of(text).len() ==> #[trigger] line_readable(lines_of(text)[i])
}


/// The number of a header line between `#` and `:`.
fn read_header_hand_id(line: &Vec<char>) -> (r: Option<u64>)
    ensures
        r == header_hand_id(line@),
{
    let h = match find_char(line, '#') {
        Some(i) => i,
        None => return None,
    };
    let len = line.len();
    let rest = chars_between(line, h + 1, len);
    proof {
        assert(rest@ =~= line@.skip(h + 1));
    }
    let c = match find_char(&rest, ':') {
        Some(i) => i,
        None => return None,
    };
    let id = trimmed_between(&rest, 0, c as usize);
    proof {
        assert(rest@.subrange(0, c as int) =~= rest@.take(c as int));
    }
    parse_u64_chars(&id)
}

/// The tournament number of a header line.
fn read_header_tournament(line: &Vec<char>) -> (r: Option<u64>)
    ensures
        r == header_tournament(line@),
{
    let tag = str_to_chars("Tournament #");
    let t = match find_substr(line, &tag) {
        Some(i) => i,
        None => return None,
    };
    let len = line.len();
    let rest = chars_between(line, t + tag.len(), len);
    proof {
        assert(rest@ =~= line@.skip(t + tag@.len()));
    }
    let c = match find_char(&rest, ',') {
        Some(i) => i,
        None => return None,
    };
    let id = trimmed_between(&rest, 0, c as usize);
    proof {
        assert(rest@.subrange(0, c as int) =~= rest@.take(c as int));
    }
    parse_u64_chars(&id)
}

/// The blinds of a header line.
fn read_header_blinds(line: &Vec<char>) -> (r: Option<(Vec<char>, Vec<char>)>)
    ensures
        match (r, header_blinds(line@)) {
            (Some((a, b)), Some((x, y))) => a@ == x && b@ == y,
            (None, None) => true,
            _ => false,
        },
{
    let (o, c) = match (find_last_char(line, '('), find_last_char(line, ')')) {
        (Some(o), Some(c)) => (o, c),
        _ => return None,
    };
    if o >= c {
        return None;
    }
    let inner = chars_between(line, o as usize + 1, c as usize);
    let s1 = match find_char(&inner, '/') {
        Some(i) => i,
        None => return None,
    };
    let after = chars_between(&inner, s1 as usize + 1, inner.len());
    proof {
        assert(after@ =~= inner@.skip(s1 + 1));
        assert(inner@.subrange(0, s1 as int) =~= inner@.take(s1 as int));
        assert(after@.subrange(0, after@.len() as int) =~= after@);
    }
    let s2 = find_char(&after, '/');
    let p0 = trimmed_between(&inner, 0, s1 as usize);
    let p1 = match s2 {
        None => trimmed_between(&after, 0, after.len()),
        Some(k) => {
            proof {
                assert(after@.subrange(0, k as int) =~= after@.take(k as int));
            }
            trimmed_between(&after, 0, k)
        },
    };
    if is_float_text_chars(&p0) && is_float_text_chars(&p1) {
        Some((p0, p1))
    } else {
        None
    }
}

/// The button seat of a table line.
fn read_button(line: &Vec<char>) -> (r: Option<usize>)
    ensures
        r == button_of(line@),
{
    let tag = str_to_chars("Seat #");
    let p = match find_substr(line, &tag) {
        Some(i) => i,
        None => return None,
    };
    let len = line.len();
    let rest = chars_between(line, p + tag.len(), len);
    proof {
        assert(rest@ =~= line@.skip(p + tag@.len()));
    }
    let sp = match find_char(&rest, ' ') {
        Some(i) => i,
        None => return None,
    };
    let num = trimmed_between(&rest, 0, sp as usize);
    proof {
        assert(rest@.subrange(0, sp as int) =~= rest@.take(sp as int));
    }
    parse_usize_chars(&num)
}

/// The view of a seat record.
pub open spec fn seat_view(e: (usize, Vec<char>, Vec<char>)) -> SeatSpec {
    (e.0, e.1@, e.2@)
}

/// The views of seat records.
pub open spec fn seats_view(v: Seq<(usize, Vec<char>, Vec<char>)>) -> Seq<SeatSpec> {
    v.map_values(|e: (usize, Vec<char>, Vec<char>)| seat_view(e))
}

/// The seat a seat line defines.
fn read_seat(line: &Vec<char>) -> (r: Option<(usize, Vec<char>, Vec<char>)>)
    ensures
        match (r, seat_of(line@)) {
            (Some(e), Some(x)) => seat_view(e) == x,
            (None, None) => true,
            _ => false,
        },
{
    let pre = str_to_chars("Seat ");
    let colon = match find_char(line, ':') {
        Some(i) => i,
        None => return None,
    };
    if colon < pre.len() {
        return None;
    }
    let seat_txt = trimmed_between(line, pre.len(), colon as usize);
    let seat = match parse_usize_chars(&seat_txt) {
        Some(v) => v,
        None => return None,
    };
    let len = line.len();
    let after = trimmed_between(line, colon + 1, len);
    proof {
        assert(line@.subrange(colon + 1, line@.len() as int) =~= line@.skip(colon + 1));
    }
    let open = match find_last_char(&after, '(') {
        Some(i) => i,
        None => return None,
    };
    let name = trimmed_between(&after, 0, open as usize);
    let chip_part = chars_between(&after, open as usize + 1, after.len());
    proof {
        assert(after@.subrange(0, open as int) =~= after@.take(open as int));
        assert(chip_part@ =~= after@.skip(open + 1));
    }
    let tag = str_to_chars(" in chips)");
    let ip = match find_substr(&chip_part, &tag) {
        Some(i) => i,
        None => return None,
    };
    let chips = trimmed_between(&chip_part, 0, ip as usize);
    proof {
        assert(chip_part@.subrange(0, ip as int) =~= chip_part@.take(ip as int));
    }
    if is_float_text_chars(&chips) {
        Some((seat, name, chips))
    } else {
        None
    }
}

/// Records a seat under its number, replacing an earlier record of that seat.
fn insert_seat(seats: &mut Vec<(usize, Vec<char>, Vec<char>)>, e: (usize, Vec<char>, Vec<char>))
    ensures
        seats_view(final(seats)@) == seat_insert(seats_view(old(seats)@), seat_view(e)),
{
    let ghost sv = seats_view(seats@);
    let mut i = seats.len();
    proof {
        assert(sv.take(i as int) =~= sv);
    }
    while i > 0
        invariant
            i <= seats@.len(),
            seats@ == old(seats)@,
            sv == seats_view(old(seats)@),
            seat_pos(sv, e.0) == seat_pos(sv.take(i as int), e.0),
        decreases i,
    {
        proof {
            assert(sv.take(i as int).drop_last() =~= sv.take(i - 1));
        }
        if seats[i - 1].0 == e.0 {
            proof {
                assert(sv.take(i as int).last() == sv[i - 1]);
            }
            let ghost ev = seat_view(e);
            seats.set(i - 1, e);
            proof {
                assert(seats_view(seats@) =~= sv.update(i - 1, ev));
            }
            return;
        }
        i = i - 1;
    }
    let ghost ev = seat_view(e);
    seats.push(e);
    proof {
        assert(seats_view(seats@) =~= sv.push(ev));
    }
}

/// The last word of a line, when it reads as a number.
fn read_last_amount(line: &Vec<char>) -> (r: Option<Vec<char>>)
    ensures
        opt_chars(r) == last_amount(line@),
{
    let mut ws = split_words(line);
    if ws.len() == 0 {
        return None;
    }
    let ghost before = ws@;
    let last = match ws.pop() {
        Some(w) => w,
        None => return None,
    };
    proof {
        assert(char_vecs_view(before).last() == last@);
    }
    if is_float_text_chars(&last) {
        Some(last)
    } else {
        None
    }
}

/// The card a two-character word names.
fn card_from_word(w: &Vec<char>) -> (r: Option<Card>)
    ensures
        match (r, card_of_word(w@)) {
            (Some(c), Some(p)) => c.valid() && card_view(c) == p,
            (None, None) => true,
            _ => false,
        },
{
    if w.len() != 2 {
        return None;
    }
    match Card::from_chars(w[0], w[1]) {
        Ok(c) => Some(c),
        Err(_) => None,
    }
}

/// The views of a sequence of cards.
pub open spec fn cards_view(v: Seq<Card>) -> Seq<(u32, u32)> {
    v.map_values(|c: Card| card_view(c))
}

/// Every card of `v` is one of the 52.
pub open spec fn cards_valid(v: Seq<Card>) -> bool {
    forall|i: int| 0 <= i < v.len() ==> #[trigger] v[i].valid()
}

/// Appends the cards that the words of `ws` name.
fn push_word_cards(ws: &Vec<Vec<char>>, board: &mut Vec<Card>)
    requires
        cards_valid(old(board)@),
    ensures
        cards_view(final(board)@) == cards_view(old(board)@) + cards_of_words(char_vecs_view(ws@)),
        cards_valid(final(board)@),
{
    let ghost wv = char_vecs_view(ws@);
    let ghost start = cards_view(board@);
    let n = ws.len();
    let mut i: usize = 0;
    proof {
        assert(wv.take(0) =~= Seq::<Seq<char>>::empty());
        assert(start + Seq::<(u32, u32)>::empty() =~= start);
    }
    while i < n
        invariant
            n == ws@.len(),
            wv == char_vecs_view(ws@),
            i <= n,
            cards_view(board@) == start + cards_of_words(wv.take(i as int)),
            cards_valid(board@),
        decreases n - i,
    {
        let c = card_from_word(&ws[i]);
        proof {
            assert(wv.take(i + 1).drop_last() =~= wv.take(i as int));
            assert(wv.take(i + 1).last() == ws@[i as int]@);
        }
        match c {
            Some(card) => {
                let ghost before = board@;
                board.push(card);
                proof {
                    assert(cards_view(board@) =~= cards_view(before).push(card_view(card)));
                    assert(start + cards_of_words(wv.take(i + 1)) =~= (start + cards_of_words(wv.take(i as int))).push(card_view(card)));
                }
            },
            None => {},
        }
        i = i + 1;
    }
    proof {
        assert(wv.take(n as int) =~= wv);
    }
}

/// Appends the cards between the first `[` and the first `]` of a flop line.
fn extract_board_cards(line: &Vec<char>, board: &mut Vec<Card>)
    requires
        brackets_ordered(line@),
        cards_valid(old(board)@),
    ensures
        cards_view(final(board)@) == cards_view(old(board)@) + board_cards_of(line@),
        cards_valid(final(board)@),
{
    let (o, c) = match (find_char(line, '['), find_char(line, ']')) {
        (Some(o), Some(c)) => (o, c),
        _ => {
            proof {
                assert(cards_view(board@) + Seq::<(u32, u32)>::empty() =~= cards_view(board@));
            }
            return;
        },
    };
    if c <= o {
        proof {
            assert(cards_view(board@) + Seq::<(u32, u32)>::empty() =~= cards_view(board@));
        }
        return;
    }
    let inner = chars_between(line, o as usize + 1, c as usize);
    let ws = split_words(&inner);
    push_word_cards(&ws, board);
}

/// Appends the card between the last `[` and the last `]` of a turn or river line.
fn extract_turn_river_card(line: &Vec<char>, board: &mut Vec<Card>)
    requires
        cards_valid(old(board)@),
    ensures
        cards_view(final(board)@) == match bracket_card_of(line@) {
            Some(c) => cards_view(old(board)@).push(c),
            None => cards_view(old(board)@),
        },
        cards_valid(final(board)@),
{
    let (o, c) = match (find_last_char(line, '['), find_last_char(line, ']')) {
        (Some(o), Some(c)) => (o, c),
        _ => return,
    };
    if o >= c {
        return;
    }
    let w = trimmed_between(line, o as usize + 1, c as usize);
    match card_from_word(&w) {
        Some(card) => {
            let ghost before = board@;
            board.push(card);
            proof {
                assert(cards_view(board@) =~= cards_view(before).push(card_view(card)));
            }
        },
        None => {},
    }
}

/// The hero's name and cards of the text after `Dealt to `.
fn read_dealt(rest: &Vec<char>) -> (r: Option<(Vec<char>, Option<[Card; 2]>)>)
    ensures
        match (r, dealt_of(rest@)) {
            (Some((n, c)), Some((m, d))) => n@ == m && opt_cards2(c) == d && (c matches Some(a) ==> a@[0].valid() && a@[1].valid()),
            (None, None) => true,
            _ => false,
        },
{
    let o = match find_char(rest, '[') {
        Some(i) => i,
        None => return None,
    };
    let name = trimmed_between(rest, 0, o as usize);
    proof {
        assert(rest@.subrange(0, o as int) =~= rest@.take(o as int));
    }
    let c = match find_char(rest, ']') {
        Some(i) => i,
        None => return Some((name, None)),
    };
    if c <= o {
        return Some((name, None));
    }
    let inner = chars_between(rest, o as usize + 1, c as usize);
    let parts = split_words(&inner);
    if parts.len() == 2 {
        proof {
            assert(char_vecs_view(parts@)[0] == parts@[0]@);
            assert(char_vecs_view(parts@)[1] == parts@[1]@);
        }
        let a = card_from_word(&parts[0]);
        let b = card_from_word(&parts[1]);
        match (a, b) {
            (Some(x), Some(y)) => {
                let pair = [x, y];
                proof {
                    assert(pair@[0] == x && pair@[1] == y);
                }
                return Some((name, Some(pair)));
            },
            _ => {
                return Some((name, None));
            },
        }
    }
    Some((name, None))
}

/// The amount at word `k`, when there is one that reads as a number.
fn amount_text_at(parts: &Vec<Vec<char>>, k: usize) -> (r: Option<String>)
    ensures
        opt_text(r) == amount_at(char_vecs_view(parts@), k as int),
{
    if k < parts.len() && is_float_text_chars(&parts[k]) {
        proof {
            assert(char_vecs_view(parts@)[k as int] == parts@[k as int]@);
        }
        Some(string_from_chars(parts[k].as_slice()))
    } else {
        proof {
            if k < parts@.len() {
                assert(char_vecs_view(parts@)[k as int] == parts@[k as int]@);
            }
        }
        None
    }
}

/// Position of the first word equal to `w`, if any.
fn word_position(parts: &Vec<Vec<char>>, w: &Vec<char>) -> (r: Option<usize>)
    ensures
        pos_or_none(r) == word_index(char_vecs_view(parts@), w@),
        r matches Some(i) ==> i < parts@.len(),
{
    let ghost pv = char_vecs_view(parts@);
    let n = parts.len();
    let mut i: usize = 0;
    proof {
        assert(pv.skip(0) =~= pv);
        lemma_word_index(pv, w@);
    }
    while i < n
        invariant
            n == parts@.len(),
            pv == char_vecs_view(parts@),
            i <= n,
            word_index(pv, w@) == if word_index(pv.skip(i as int), w@) < 0 { -1 } else { word_index(pv.skip(i as int), w@) + i },
            -1 <= word_index(pv.skip(i as int), w@) < n - i,
        decreases n - i,
    {
        proof {
            assert(pv.skip(i as int)[0] == parts@[i as int]@);
            assert(pv.skip(i as int).drop_first() =~= pv.skip(i + 1));
            lemma_word_index(pv.skip(i + 1), w@);
        }
        if chars_eq(&parts[i], w) {
            return Some(i);
        }
        i = i + 1;
    }
    None
}

/// The action an action text describes.
fn parse_action(text: &Vec<char>) -> (r: Option<ParsedAction>)
    ensures
        match (r, action_of(text@)) {
            (Some(a), Some(b)) => action_view(a) == b,
            (None, None) => true,
            _ => false,
        },
{
    let parts = split_words(text);
    if parts.len() == 0 {
        return None;
    }
    proof {
        assert(char_vecs_view(parts@)[0] == parts@[0]@);
        assert(parts@.len() <= text@.len()) by {
            lemma_words_len(text@);
        }
    }
    let w0 = &parts[0];
    if chars_eq(w0, &str_to_chars("folds")) {
        return Some(ParsedAction::Fold);
    }
    if chars_eq(w0, &str_to_chars("checks")) {
        return Some(ParsedAction::Check);
    }
    if chars_eq(w0, &str_to_chars("calls")) {
        return Some(ParsedAction::Call(amount_text_at(&parts, 1)));
    }
    let all_in = contains_substr(text, &str_to_chars("and is all-in"));
    if chars_eq(w0, &str_to_chars("bets")) {
        let amt = amount_text_at(&parts, 1);
        if all_in {
            return Some(ParsedAction::AllIn(amt));
        }
        return Some(ParsedAction::Bet(amt));
    }
    if chars_eq(w0, &str_to_chars("raises")) {
        let t = word_position(&parts, &str_to_chars("to"));
        let amt = match t {
            Some(k) => amount_text_at(&parts, k + 1),
            None => amount_text_at(&parts, 1),
        };
        if all_in {
            return Some(ParsedAction::AllIn(amt));
        }
        return Some(ParsedAction::Raise(amt));
    }
    None
}

/// The actor and action of a `Name: action` line.
fn read_action_line(line: &Vec<char>) -> (r: Option<(Vec<char>, ParsedAction)>)
    ensures
        match (r, action_line_of(line@)) {
            (Some((n, a)), Some((m, b))) => n@ == m && action_view(a) == b,
            (None, None) => true,
            _ => false,
        },
{
    let c = match find_char(line, ':') {
        Some(i) => i,
        None => return None,
    };
    let len = line.len();
    let text = trimmed_between(line, c + 1, len);
    proof {
        assert(line@.subrange(c + 1, line@.len() as int) =~= line@.skip(c + 1));
        assert(line@.subrange(0, c as int) =~= line@.take(c as int));
    }
    match parse_action(&text) {
        Some(a) => Some((trimmed_between(line, 0, c as usize), a)),
        None => None,
    }
}


/// The reader's state while it goes through the lines of a hand.
struct HandScan {
    hand_id: u64,
    tournament_id: Option<u64>,
    sb: Option<Vec<char>>,
    bb: Option<Vec<char>>,
    ante: Option<Vec<char>>,
    button: usize,
    hero_name: Option<Vec<char>>,
    hero_cards: Option<[Card; 2]>,
    seats: Vec<(usize, Vec<char>, Vec<char>)>,
    actions: Vec<(Vec<char>, ParsedAction, Street)>,
    board: Vec<Card>,
    preflop: bool,
    flop: bool,
    turn: bool,
    river: bool,
    showdown: bool,
}

/// The views of recorded actions.
spec fn actions_view(v: Seq<(Vec<char>, ParsedAction, Street)>) -> Seq<(Seq<char>, ActionSpec, Street)> {
    v.map_values(|e: (Vec<char>, ParsedAction, Street)| (e.0@, action_view(e.1), e.2))
}

/// The content of the reader's state.
spec fn scan_view(s: HandScan) -> ScanState {
    ScanState {
        hand_id: s.hand_id,
        tournament_id: s.tournament_id,
        sb: opt_chars(s.sb),
        bb: opt_chars(s.bb),
        ante: opt_chars(s.ante),
        button: s.button,
        hero_name: opt_chars(s.hero_name),
        hero_cards: opt_cards2(s.hero_cards),
        seats: seats_view(s.seats@),
        actions: actions_view(s.actions@),
        board: cards_view(s.board@),
        preflop: s.preflop,
        flop: s.flop,
        turn: s.turn,
        river: s.river,
        showdown: s.showdown,
    }
}

/// Both hero cards, where known, are among the 52.
pub open spec fn cards2_valid(c: Option<[Card; 2]>) -> bool {
    c matches Some(a) ==> a@[0].valid() && a@[1].valid()
}

/// The cards the reader holds are among the 52.
spec fn scan_valid(s: HandScan) -> bool {
    cards_valid(s.board@) && cards2_valid(s.hero_cards)
}

/// Reads one line.
fn scan_line(st: &mut HandScan, raw: &Vec<char>)
    requires
        line_readable(raw@),
        scan_valid(*old(st)),
    ensures
        scan_view(*final(st)) == step(scan_view(*old(st)), raw@),
        scan_valid(*final(st)),
{
    let (a, b) = trim_bounds(raw.as_slice());
    let line = chars_between(raw, a, b);
    if line.len() == 0 {
        return;
    }
    if starts_with(&line, &str_to_chars("PokerStars Hand #")) || starts_with(&line, &str_to_chars("Hand #")) {
        let id = read_header_hand_id(&line);
        let tid = read_header_tournament(&line);
        let blinds = read_header_blinds(&line);
        if let Some(v) = id {
            st.hand_id = v;
        }
        if let Some(v) = tid {
            st.tournament_id = Some(v);
        }
        if let Some((x, y)) = blinds {
            st.sb = Some(x);
            st.bb = Some(y);
        }
        return;
    }
    if contains_substr(&line, &str_to_chars("is the button")) {
        if let Some(bt) = read_button(&line) {
            st.button = bt;
        }
        return;
    }
    if starts_with(&line, &str_to_chars("Seat ")) && contains_substr(&line, &str_to_chars(" in chips)")) {
        if let Some(e) = read_seat(&line) {
            insert_seat(&mut st.seats, e);
        }
        return;
    }
    if contains_substr(&line, &str_to_chars("posts the ante")) {
        if let Some(x) = read_last_amount(&line) {
            st.ante = Some(x);
        }
        return;
    }
    if contains_substr(&line, &str_to_chars("posts small blind")) {
        if let Some(x) = read_last_amount(&line) {
            st.sb = Some(x);
        }
        return;
    }
    if contains_substr(&line, &str_to_chars("posts big blind")) {
        if let Some(x) = read_last_amount(&line) {
            st.bb = Some(x);
        }
        return;
    }
    let dealt = str_to_chars("Dealt to ");
    if starts_with(&line, &dealt) {
        let rest = chars_between(&line, dealt.len(), line.len());
        proof {
            assert(rest@ =~= line@.skip(dealt@.len() as int));
        }
        if let Some((name, cards)) = read_dealt(&rest) {
            st.hero_name = Some(name);
            if let Some(c) = cards {
                st.hero_cards = Some(c);
            }
        }
        return;
    }
    if starts_with(&line, &str_to_chars("*** HOLE CARDS ***")) {
        st.preflop = true;
        return;
    }
    if starts_with(&line, &str_to_chars("*** FLOP ***")) {
        st.preflop = false;
        st.flop = true;
        extract_board_cards(&line, &mut st.board);
        return;
    }
    if starts_with(&line, &str_to_chars("*** TURN ***")) {
        st.flop = false;
        st.turn = true;
        extract_turn_river_card(&line, &mut st.board);
        return;
    }
    if starts_with(&line, &str_to_chars("*** RIVER ***")) {
        st.turn = false;
        st.river = true;
        extract_turn_river_card(&line, &mut st.board);
        return;
    }
    if starts_with(&line, &str_to_chars("*** SHOW DOWN ***")) || starts_with(&line, &str_to_chars("*** SUMMARY ***")) {
        st.river = false;
        st.showdown = true;
        return;
    }
    if (st.preflop || st.flop || st.turn || st.river) && !st.showdown {
        if let Some((actor, act)) = read_action_line(&line) {
            let street = if st.river {
                Street::River
            } else if st.turn {
                Street::Turn
            } else if st.flop {
                Street::Flop
            } else {
                Street::Preflop
            };
            let ghost before = st.actions@;
            let ghost entry = (actor@, action_view(act), street);
            st.actions.push((actor, act, street));
            proof {
                assert(actions_view(st.actions@) =~= actions_view(before).push(entry));
            }
        }
    }
}

/// Whether a line is readable.
fn line_is_readable(raw: &Vec<char>) -> (b: bool)
    ensures
        b == line_readable(raw@),
{
    let (a, b) = trim_bounds(raw.as_slice());
    let line = chars_between(raw, a, b);
    if line.len() == 0 || starts_with(&line, &str_to_chars("PokerStars Hand #")) || starts_with(&line, &str_to_chars("Hand #"))
        || contains_substr(&line, &str_to_chars("is the button"))
        || (starts_with(&line, &str_to_chars("Seat ")) && contains_substr(&line, &str_to_chars(" in chips)")))
        || contains_substr(&line, &str_to_chars("posts the ante"))
        || contains_substr(&line, &str_to_chars("posts small blind"))
        || contains_substr(&line, &str_to_chars("posts big blind")) {
        return true;
    }
    let dealt = str_to_chars("Dealt to ");
    if starts_with(&line, &dealt) {
        let rest = chars_between(&line, dealt.len(), line.len());
        proof {
            assert(rest@ =~= line@.skip(dealt@.len() as int));
        }
        return match (find_char(&rest, '['), find_char(&rest, ']')) {
            (Some(o), Some(c)) => c > o,
            _ => true,
        };
    }
    if starts_with(&line, &str_to_chars("*** HOLE CARDS ***")) {
        return true;
    }
    if starts_with(&line, &str_to_chars("*** FLOP ***")) {
        return match (find_char(&line, '['), find_char(&line, ']')) {
            (Some(o), Some(c)) => c > o,
            _ => true,
        };
    }
    true
}


/// A player of a parsed hand, in seat order: name, the chip count's text and, for the
/// hero, the hole cards.
#[derive(Debug, Clone, PartialEq)]
pub struct SeatedPlayer {
    pub name: String,
    pub stack: String,
    pub hole_cards: Option<[Card; 2]>,
}

/// A betting action of a parsed hand: street, the actor's position among the players,
/// and the action.
#[derive(Debug, Clone, PartialEq)]
pub struct ActionRecord {
    pub street: Street,
    pub player_idx: usize,
    pub action: ParsedAction,
}

/// A parsed tournament hand history; amounts are the literal text of the numbers.
#[derive(Debug, Clone, PartialEq)]
pub struct HandHistoryRecord {
    pub hand_id: u64,
    pub tournament_id: Option<u64>,
    pub sb_amount: Option<String>,
    pub bb_amount: Option<String>,
    pub ante_amount: Option<String>,
    pub hero_name: Option<String>,
    pub hero_cards: Option<[Card; 2]>,
    pub button_seat: usize,
    pub players: Vec<SeatedPlayer>,
    pub actions: Vec<ActionRecord>,
    pub board_cards: Vec<Card>,
}

/// A player as name, chip text and hole cards.
pub type PlayerSpec = (Seq<char>, Seq<char>, Option<((u32, u32), (u32, u32))>);

/// The content of a parsed hand.
#[verifier::ext_equal]
pub ghost struct RecordSpec {
    pub hand_id: u64,
    pub tournament_id: Option<u64>,
    pub sb: Option<Seq<char>>,
    pub bb: Option<Seq<char>>,
    pub ante: Option<Seq<char>>,
    pub hero_name: Option<Seq<char>>,
    pub hero_cards: Option<((u32, u32), (u32, u32))>,
    pub button: usize,
    pub players: Seq<PlayerSpec>,
    pub actions: Seq<(Street, usize, ActionSpec)>,
    pub board: Seq<(u32, u32)>,
}

/// Position of the seat with the smallest number (the first such).
pub open spec fn min_seat_index(s: Seq<SeatSpec>) -> int
    decreases s.len(),
{
    if s.len() <= 1 {
        0
    } else {
        let m = min_seat_index(s.drop_last());
        if s.last().0 < s[m].0 {
            s.len() - 1
        } else {
            m
        }
    }
}

/// `min_seat_index` is a position of `s`.
pub proof fn lemma_min_seat_index(s: Seq<SeatSpec>)
    requires
        s.len() > 0,
    ensures
        0 <= min_seat_index(s) < s.len(),
    decreases s.len(),
{
    if s.len() > 1 {
        lemma_min_seat_index(s.drop_last());
    }
}

/// The seats in increasing order of their numbers.
pub open spec fn seats_by_number(s: Seq<SeatSpec>) -> Seq<SeatSpec>
    decreases s.len(),
{
    if s.len() == 0 {
        Seq::empty()
    } else {
        let m = min_seat_index(s);
        proof {
            lemma_min_seat_index(s);
        }
        seq![s[m]] + seats_by_number(s.remove(m))
    }
}

/// The players of the seats, in order; the hero's entry holds the hero's cards.
pub open spec fn players_of(
    sorted: Seq<SeatSpec>,
    hero: Option<Seq<char>>,
    cards: Option<((u32, u32), (u32, u32))>,
) -> Seq<PlayerSpec> {
    sorted.map_values(
        |e: SeatSpec| (e.1, e.2, if hero == Some(e.1) { cards } else { None }),
    )
}

/// The names of the players.
pub open spec fn player_names(ps: Seq<PlayerSpec>) -> Seq<Seq<char>> {
    ps.map_values(|p: PlayerSpec| p.0)
}

/// Position of the last name equal to `n`, or -1.
pub open spec fn name_index(names: Seq<Seq<char>>, n: Seq<char>) -> int
    decreases names.len(),
{
    if names.len() == 0 {
        -1
    } else if names.last() == n {
        names.len() - 1
    } else {
        name_index(names.drop_last(), n)
    }
}

/// The actions of seated players, each with the position of its actor.
pub open spec fn map_actions(
    names: Seq<Seq<char>>,
    acts: Seq<(Seq<char>, ActionSpec, Street)>,
) -> Seq<(Street, usize, ActionSpec)>
    decreases acts.len(),
{
    if acts.len() == 0 {
        Seq::empty()
    } else {
        let prev = map_actions(names, acts.drop_last());
        let a = acts.last();
        let i = name_index(names, a.0);
        if i >= 0 {
            prev.push((a.2, i as usize, a.1))
        } else {
            prev
        }
    }
}

/// The record of a hand whose lines left the reader in state `st`.
pub open spec fn finish(st: ScanState) -> RecordSpec {
    let players = players_of(seats_by_number(st.seats), st.hero_name, st.hero_cards);
    RecordSpec {
        hand_id: st.hand_id,
        tournament_id: st.tournament_id,
        sb: st.sb,
        bb: st.bb,
        ante: st.ante,
        hero_name: st.hero_name,
        hero_cards: st.hero_cards,
        button: st.button,
        players: players,
        actions: map_actions(player_names(players), st.actions),
        board: st.board,
    }
}

/// The result of reading a hand history: its record, or an error when no seat was read.
pub open spec fn parse_spec(text: Seq<char>) -> Result<RecordSpec, ()> {
    let st = scan_lines(lines_of(text));
    if st.seats.len() == 0 {
        Err(())
    } else {
        Ok(finish(st))
    }
}

/// The message of the error for a hand without seats.
pub open spec fn no_seats_message() -> Seq<char> {
    "Failed to parse seat definitions from hand history"@
}

/// The content of a player.
pub open spec fn player_view(p: SeatedPlayer) -> PlayerSpec {
    (p.name@, p.stack@, opt_cards2(p.hole_cards))
}

/// The content of an action record.
pub open spec fn action_record_view(a: ActionRecord) -> (Street, usize, ActionSpec) {
    (a.street, a.player_idx, action_view(a.action))
}

/// The content of a parsed hand.
pub open spec fn record_view(r: HandHistoryRecord) -> RecordSpec {
    RecordSpec {
        hand_id: r.hand_id,
        tournament_id: r.tournament_id,
        sb: opt_text(r.sb_amount),
        bb: opt_text(r.bb_amount),
        ante: opt_text(r.ante_amount),
        hero_name: opt_text(r.hero_name),
        hero_cards: opt_cards2(r.hero_cards),
        button: r.button_seat,
        players: r.players@.map_values(|p: SeatedPlayer| player_view(p)),
        actions: r.actions@.map_values(|a: ActionRecord| action_record_view(a)),
        board: cards_view(r.board_cards@),
    }
}

/// Every card of a parsed hand is one of the 52.
pub open spec fn record_cards_valid(r: HandHistoryRecord) -> bool {
    &&& cards_valid(r.board_cards@)
    &&& cards2_valid(r.hero_cards)
    &&& forall|i: int| 0 <= i < r.players@.len() ==> cards2_valid(#[trigger] r.players@[i].hole_cards)
}

/// Position of the seat with the smallest number.
fn min_seat_position(v: &Vec<(usize, Vec<char>, Vec<char>)>) -> (m: usize)
    requires
        v@.len() > 0,
    ensures
        m == min_seat_index(seats_view(v@)),
        m < v@.len(),
{
    let ghost sv = seats_view(v@);
    let n = v.len();
    let mut best: usize = 0;
    let mut i: usize = 1;
    proof {
        assert(sv.take(1).len() == 1);
    }
    while i < n
        invariant
            n == v@.len(),
            sv == seats_view(v@),
            1 <= i <= n,
            best < i,
            best == min_seat_index(sv.take(i as int)),
        decreases n - i,
    {
        proof {
            assert(sv.take(i + 1).drop_last() =~= sv.take(i as int));
            assert(sv.take(i + 1).last() == sv[i as int]);
            assert(sv.take(i + 1)[best as int] == sv[best as int]);
        }
        if v[i].0 < v[best].0 {
            best = i;
        }
        i = i + 1;
    }
    proof {
        assert(sv.take(n as int) =~= sv);
    }
    best
}

/// The seats in increasing order of their numbers.
fn sort_seats(seats: Vec<(usize, Vec<char>, Vec<char>)>) -> (r: Vec<(usize, Vec<char>, Vec<char>)>)
    ensures
        seats_view(r@) == seats_by_number(seats_view(seats@)),
{
    let ghost orig = seats_view(seats@);
    let mut rest = seats;
    let mut out: Vec<(usize, Vec<char>, Vec<char>)> = Vec::new();
    proof {
        assert(seats_view(out@) + seats_by_number(orig) =~= seats_by_number(orig));
    }
    while rest.len() > 0
        invariant
            seats_view(out@) + seats_by_number(seats_view(rest@)) == seats_by_number(orig),
        decreases rest@.len(),
    {
        let ghost rv = seats_view(rest@);
        let ghost ov = seats_view(out@);
        let m = min_seat_position(&rest);
        let e = rest.remove(m);
        proof {
            lemma_min_seat_index(rv);
            assert(seats_view(rest@) =~= rv.remove(m as int));
            assert(seat_view(e) == rv[m as int]);
            assert(seats_by_number(rv) == seq![rv[m as int]] + seats_by_number(rv.remove(m as int)));
        }
        out.push(e);
        proof {
            assert(seats_view(out@) =~= ov.push(seat_view(e)));
            assert(ov + seats_by_number(rv) =~= seats_view(out@) + seats_by_number(seats_view(rest@)));
        }
    }
    proof {
        assert(seats_by_number(seats_view(rest@)) =~= Seq::<SeatSpec>::empty());
        assert(seats_view(out@) + Seq::<SeatSpec>::empty() =~= seats_view(out@));
    }
    out
}

/// Position of the last name equal to `n`, if any.
fn last_name_position(names: &Vec<Vec<char>>, n: &Vec<char>) -> (r: Option<usize>)
    ensures
        match r {
            Some(k) => k == name_index(char_vecs_view(names@), n@) && k < names@.len(),
            None => name_index(char_vecs_view(names@), n@) == -1,
        },
{
    let ghost nv = char_vecs_view(names@);
    let mut i = names.len();
    proof {
        assert(nv.take(i as int) =~= nv);
    }
    while i > 0
        invariant
            i <= names@.len(),
            nv == char_vecs_view(names@),
            name_index(nv, n@) == name_index(nv.take(i as int), n@),
        decreases i,
    {
        proof {
            assert(nv.take(i as int).drop_last() =~= nv.take(i - 1));
            assert(nv.take(i as int).last() == names@[i - 1]@);
        }
        if chars_eq(&names[i - 1], n) {
            return Some(i - 1);
        }
        i = i - 1;
    }
    None
}

/// The optional text of an optional character vector.
fn opt_string(o: Option<Vec<char>>) -> (r: Option<String>)
    ensures
        opt_text(r) == opt_chars(o),
{
    match o {
        Some(v) => Some(string_from_chars(v.as_slice())),
        None => None,
    }
}

/// Builds the record of a hand from the reader's final state.
fn finish_scan(st: HandScan) -> (r: HandHistoryRecord)
    requires
        scan_valid(st),
    ensures
        record_view(r) == finish(scan_view(st)),
        record_cards_valid(r),
{
    let ghost sv = scan_view(st);
    let HandScan {
        hand_id,
        tournament_id,
        sb,
        bb,
        ante,
        button,
        hero_name,
        hero_cards,
        seats,
        actions,
        board,
        ..
    } = st;
    let ghost seat_count = seats@.len();
    let mut sorted = sort_seats(seats);
    let ghost sorted_view = seats_view(sorted@);
    let ghost pspec = players_of(sorted_view, opt_chars(hero_name), opt_cards2(hero_cards));
    proof {
        assert(sorted_view.len() == seat_count) by {
            lemma_seats_by_number_len(seats_view(st.seats@));
        }
    }
    let mut players: Vec<SeatedPlayer> = Vec::new();
    let mut names: Vec<Vec<char>> = Vec::new();
    let total = sorted.len();
    let mut k: usize = 0;
    while k < total
        invariant
            total == sorted_view.len(),
            k <= total,
            sorted@.len() == total - k,
            forall|j: int| 0 <= j < sorted@.len() ==> seat_view(#[trigger] sorted@[j]) == sorted_view[k + j],
            pspec == players_of(sorted_view, opt_chars(hero_name), opt_cards2(hero_cards)),
            players@.map_values(|p: SeatedPlayer| player_view(p)) == pspec.take(k as int),
            char_vecs_view(names@) == player_names(pspec).take(k as int),
            cards2_valid(hero_cards),
            forall|i: int| 0 <= i < players@.len() ==> cards2_valid(#[trigger] players@[i].hole_cards),
        decreases total - k,
    {
        let ghost before_p = players@.map_values(|p: SeatedPlayer| player_view(p));
        let ghost before_n = char_vecs_view(names@);
        let ghost sorted_before = sorted@;
        let e = sorted.remove(0);
        proof {
            assert(seat_view(e) == sorted_view[k as int]);
            assert forall|j: int| 0 <= j < sorted@.len() implies seat_view(#[trigger] sorted@[j]) == sorted_view[k + 1 + j] by {
                assert(sorted@[j] == sorted_before[j + 1]);
            }
        }
        let (_, name, chips) = e;
        let is_hero = match &hero_name {
            Some(h) => chars_eq(h, &name),
            None => false,
        };
        let hole = if is_hero { hero_cards } else { None };
        let p = SeatedPlayer {
            name: string_from_chars(name.as_slice()),
            stack: string_from_chars(chips.as_slice()),
            hole_cards: hole,
        };
        proof {
            assert(opt_chars(hero_name) == Some(name@) <==> is_hero);
            assert(player_view(p) == pspec[k as int]);
        }
        players.push(p);
        names.push(name);
        proof {
            assert(players@.map_values(|p: SeatedPlayer| player_view(p)) =~= before_p.push(pspec[k as int]));
            assert(pspec.take(k + 1) =~= pspec.take(k as int).push(pspec[k as int]));
            assert(char_vecs_view(names@) =~= before_n.push(pspec[k as int].0));
            assert(player_names(pspec).take(k + 1) =~= player_names(pspec).take(k as int).push(pspec[k as int].0));
        }
        k = k + 1;
    }
    proof {
        assert(pspec.take(total as int) =~= pspec);
        assert(player_names(pspec).take(total as int) =~= player_names(pspec));
    }
    let ghost nview = player_names(pspec);
    let ghost aview = actions_view(actions@);
    let mut acts = actions;
    let mut records: Vec<ActionRecord> = Vec::new();
    let na = acts.len();
    let mut i: usize = 0;
    proof {
        assert(aview.take(0) =~= Seq::<(Seq<char>, ActionSpec, Street)>::empty());
        assert(records@.map_values(|a: ActionRecord| action_record_view(a)) =~= Seq::<(Street, usize, ActionSpec)>::empty());
    }
    while acts.len() > 0
        invariant
            na == aview.len(),
            i + acts@.len() == na,
            forall|j: int| 0 <= j < acts@.len() ==> #[trigger] actions_view(acts@)[j] == aview[i + j],
            char_vecs_view(names@) == nview,
            names@.len() == total,
            records@.map_values(|a: ActionRecord| action_record_view(a)) == map_actions(nview, aview.take(i as int)),
        decreases acts@.len(),
    {
        let ghost acts_before = acts@;
        let ghost before_r = records@.map_values(|a: ActionRecord| action_record_view(a));
        let (actor, act, street) = acts.remove(0);
        proof {
            assert(actions_view(acts_before)[0] == aview[i as int]);
            assert forall|j: int| 0 <= j < acts@.len() implies #[trigger] actions_view(acts@)[j] == aview[i + 1 + j] by {
                assert(acts@[j] == acts_before[j + 1]);
                assert(actions_view(acts_before)[j + 1] == aview[i + 1 + j]);
            }
            assert(aview.take(i + 1).drop_last() =~= aview.take(i as int));
            assert(aview.take(i + 1).last() == aview[i as int]);
        }
        let idx = last_name_position(&names, &actor);
        if let Some(pos) = idx {
            let rec = ActionRecord { street: street, player_idx: pos, action: act };
            records.push(rec);
            proof {
                assert(records@.map_values(|a: ActionRecord| action_record_view(a)) =~= before_r.push(action_record_view(rec)));
            }
        }
        i = i + 1;
    }
    proof {
        assert(aview.take(i as int) =~= aview);
    }
    let r = HandHistoryRecord {
        hand_id: hand_id,
        tournament_id: tournament_id,
        sb_amount: opt_string(sb),
        bb_amount: opt_string(bb),
        ante_amount: opt_string(ante),
        hero_name: opt_string(hero_name),
        hero_cards: hero_cards,
        button_seat: button,
        players: players,
        actions: records,
        board_cards: board,
    };
    proof {
        assert(record_view(r).players =~= pspec);
        assert(record_view(r) =~= finish(sv));
    }
    r
}

proof fn lemma_seats_by_number_len(s: Seq<SeatSpec>)
    ensures
        seats_by_number(s).len() == s.len(),
    decreases s.len(),
{
    if s.len() > 0 {
        lemma_min_seat_index(s);
        lemma_seats_by_number_len(s.remove(min_seat_index(s)));
    }
}


/// Reader for tournament hand-history text (PokerStars and similar formats).
pub struct HandHistoryParser;

impl HandHistoryParser {
    /// Reads a hand history: the hand id and tournament id from the header, the blinds
    /// and ante, the button, the seats, the hero's name and cards, the board and the
    /// betting actions of the seated players. Fails when no seat line was read.
    pub fn parse(text: &str) -> (r: Result<HandHistoryRecord, String>)
        requires
            text_readable(text@),
        ensures
            match (r, parse_spec(text@)) {
                (Ok(rec), Ok(x)) => record_view(rec) == x && record_cards_valid(rec),
                (Err(e), Err(_)) => e@ == no_seats_message(),
                _ => false,
            },
    {
        let cs = str_to_chars(text);
        let lines = split_lines(&cs);
        let ghost lv = char_vecs_view(lines@);
        let mut st = HandScan {
            hand_id: 0,
            tournament_id: None,
            sb: None,
            bb: None,
            ante: None,
            button: 1,
            hero_name: None,
            hero_cards: None,
            seats: Vec::new(),
            actions: Vec::new(),
            board: Vec::new(),
            preflop: false,
            flop: false,
            turn: false,
            river: false,
            showdown: false,
        };
        proof {
            assert(scan_view(st) =~= initial_scan());
            assert(lv.take(0) =~= Seq::<Seq<char>>::empty());
        }
        let n = lines.len();
        let mut i: usize = 0;
        while i < n
            invariant
                n == lines@.len(),
                lv == char_vecs_view(lines@),
                lv == lines_of(text@),
                forall|k: int| 0 <= k < lines@.len() ==> (#[trigger] lines@[k])@.len() <= text@.len(),
                text_readable(text@),
                i <= n,
                scan_view(st) == scan_lines(lv.take(i as int)),
                scan_valid(st),
            decreases n - i,
        {
            proof {
                assert(lv[i as int] == lines@[i as int]@);
                assert(line_readable(lv[i as int]));
                assert(lv.take(i + 1).drop_last() =~= lv.take(i as int));
                assert(lv.take(i + 1).last() == lv[i as int]);
            }
            scan_line(&mut st, &lines[i]);
            i = i + 1;
        }
        proof {
            assert(lv.take(n as int) =~= lv);
        }
        if st.seats.len() == 0 {
            return Err(string_from_chars(str_to_chars("Failed to parse seat definitions from hand history").as_slice()));
        }
        Ok(finish_scan(st))
    }

    /// Whether every line of `text` can be read: where a `Dealt to` line or a flop line
    /// has both brackets, its first `]` comes after its first `[`.
    pub fn is_readable(text: &str) -> (b: bool)
        ensures
            b == text_readable(text@),
    {
        let cs = str_to_chars(text);
        let lines = split_lines(&cs);
        let ghost lv = char_vecs_view(lines@);
        let n = lines.len();
        let mut i: usize = 0;
        while i < n
            invariant
                n == lines@.len(),
                lv == char_vecs_view(lines@),
                lv == lines_of(text@),
                forall|k: int| 0 <= k < lines@.len() ==> (#[trigger] lines@[k])@.len() <= text@.len(),
                i <= n,
                forall|k: int| 0 <= k < i ==> #[trigger] line_readable(lv[k]),
            decreases n - i,
        {
            proof {
                assert(lv[i as int] == lines@[i as int]@);
            }
            if !line_is_readable(&lines[i]) {
                return false;
            }
            i = i + 1;
        }
        true
    }
}


/// The seats come out in increasing order of their numbers, and as many as went in.
pub proof fn lemma_seats_by_number_sorted(s: Seq<SeatSpec>)
    ensures
        seats_by_number(s).len() == s.len(),
        forall|i: int, j: int| 0 <= i < j < seats_by_number(s).len() ==> (#[trigger] seats_by_number(s)[i]).0 <= (#[trigger] seats_by_number(s)[j]).0,
        forall|i: int| 0 <= i < seats_by_number(s).len() ==> s.contains(#[trigger] seats_by_number(s)[i]),
    decreases s.len(),
{
    lemma_seats_by_number_len(s);
    if s.len() > 0 {
        let m = min_seat_index(s);
        lemma_min_seat_index(s);
        lemma_min_seat_is_min(s);
        let rest = s.remove(m);
        lemma_seats_by_number_sorted(rest);
        let out = seats_by_number(s);
        let tail = seats_by_number(rest);
        assert(out == seq![s[m]] + tail);
        assert forall|i: int| 0 <= i < out.len() implies s.contains(#[trigger] out[i]) by {
            if i > 0 {
                assert(out[i] == tail[i - 1]);
                assert(rest.contains(tail[i - 1]));
                let k = choose|k: int| 0 <= k < rest.len() && rest[k] == tail[i - 1];
                if k < m {
                    assert(rest[k] == s[k]);
                } else {
                    assert(rest[k] == s[k + 1]);
                }
            }
        }
        assert forall|i: int, j: int| 0 <= i < j < out.len() implies (#[trigger] out[i]).0 <= (#[trigger] out[j]).0 by {
            if i > 0 {
                assert(out[i] == tail[i - 1]);
                assert(out[j] == tail[j - 1]);
            } else {
                assert(out[j] == tail[j - 1]);
                assert(s.contains(out[j]));
            }
        }
    }
}

proof fn lemma_min_seat_is_min(s: Seq<SeatSpec>)
    requires
        s.len() > 0,
    ensures
        forall|k: int| 0 <= k < s.len() ==> s[min_seat_index(s)].0 <= (#[trigger] s[k]).0,
    decreases s.len(),
{
    lemma_min_seat_index(s);
    if s.len() > 1 {
        let p = s.drop_last();
        lemma_min_seat_is_min(p);
        lemma_min_seat_index(p);
        assert forall|k: int| 0 <= k < s.len() implies s[min_seat_index(s)].0 <= (#[trigger] s[k]).0 by {
            if k < s.len() - 1 {
                assert(s[k] == p[k]);
            }
            assert(s[min_seat_index(p)] == p[min_seat_index(p)]);
        }
    }
}

/// Every recorded action names, by its player index, a player with the actor's name.
pub proof fn lemma_action_indices_valid(names: Seq<Seq<char>>, acts: Seq<(Seq<char>, ActionSpec, Street)>)
    ensures
        forall|i: int| 0 <= i < map_actions(names, acts).len() ==> (#[trigger] map_actions(names, acts)[i]).1 < names.len(),
    decreases acts.len(),
{
    if acts.len() > 0 {
        let prev = map_actions(names, acts.drop_last());
        lemma_action_indices_valid(names, acts.drop_last());
        lemma_name_index(names, acts.last().0);
        let out = map_actions(names, acts);
        assert forall|i: int| 0 <= i < out.len() implies (#[trigger] out[i]).1 < names.len() by {
            if i < prev.len() {
                assert(out[i] == prev[i]);
            }
        }
    }
}

proof fn lemma_name_index(names: Seq<Seq<char>>, n: Seq<char>)
    ensures
        -1 <= name_index(names, n) < names.len(),
        name_index(names, n) >= 0 ==> names[name_index(names, n)] == n,
    decreases names.len(),
{
    if names.len() > 0 && names.last() != n {
        lemma_name_index(names.drop_last(), n);
    }
}

/// The amount that the `k`-th word of an action text gives, if that word is a number.
pub open spec fn word_amount(parts: Seq<Seq<char>>, k: int) -> Option<Seq<char>> {
    if 0 <= k < parts.len() && is_float_text(parts[k]) { Some(parts[k]) } else { None }
}

/// What an action text says, read from its words: `folds` and `checks` carry no amount;
/// `calls X` is a call of `X`; `bets X` is a bet of `X`, and an all-in of `X` when the text
/// says `and is all-in`; `raises A to B` is a raise to `B` (to the second word when there
/// is no `to`), and an all-in of that amount when the text says `and is all-in`.
pub proof fn lemma_action_words(text: Seq<char>)
    ensures
        words(text).len() > 0 && words(text)[0] == "folds"@ ==> action_of(text) == Some(ActionSpec::Fold),
        words(text).len() > 0 && words(text)[0] == "checks"@ ==> action_of(text) == Some(ActionSpec::Check),
        words(text).len() > 0 && words(text)[0] == "calls"@ ==> action_of(text) == Some(
            ActionSpec::Call(word_amount(words(text), 1)),
        ),
        words(text).len() > 0 && words(text)[0] == "bets"@ && contains_sub(text, "and is all-in"@)
            ==> action_of(text) == Some(ActionSpec::AllIn(word_amount(words(text), 1))),
        words(text).len() > 0 && words(text)[0] == "bets"@ && !contains_sub(text, "and is all-in"@)
            ==> action_of(text) == Some(ActionSpec::Bet(word_amount(words(text), 1))),
        words(text).len() > 0 && words(text)[0] == "raises"@ && contains_sub(text, "and is all-in"@)
            ==> action_of(text) == Some(ActionSpec::AllIn(
            if word_index(words(text), "to"@) >= 0 {
                word_amount(words(text), word_index(words(text), "to"@) + 1)
            } else {
                word_amount(words(text), 1)
            },
        )),
        words(text).len() > 0 && words(text)[0] == "raises"@ && !contains_sub(text, "and is all-in"@)
            ==> action_of(text) == Some(ActionSpec::Raise(
            if word_index(words(text), "to"@) >= 0 {
                word_amount(words(text), word_index(words(text), "to"@) + 1)
            } else {
                word_amount(words(text), 1)
            },
        )),
        words(text).len() == 0 ==> action_of(text) is None,
{
    reveal_strlit("folds");
    reveal_strlit("checks");
    reveal_strlit("calls");
    reveal_strlit("bets");
    reveal_strlit("raises");
}

/// How far into the hand the reader has come: 0 before the flop, then 1, 2 and 3 from
/// the flop, turn and river lines (3 also once the showdown or summary is reached).
spec fn scan_level(st: ScanState) -> int {
    if st.river || st.showdown {
        3
    } else if st.turn {
        2
    } else if st.flop {
        1
    } else {
        0
    }
}

/// The actions read are in street order, none of them past how far the reader has come.
spec fn actions_in_street_order(st: ScanState) -> bool {
    &&& forall|i: int, j: int|
        0 <= i < j < st.actions.len() ==> street_order(#[trigger] st.actions[i].2) <= street_order(
            #[trigger] st.actions[j].2,
        )
    &&& forall|i: int| 0 <= i < st.actions.len() ==> street_order(#[trigger] st.actions[i].2) <= scan_level(st)
}

proof fn lemma_scan_street_order(lines: Seq<Seq<char>>)
    ensures
        actions_in_street_order(scan_lines(lines)),
    decreases lines.len(),
{
    if lines.len() > 0 {
        let prev = scan_lines(lines.drop_last());
        lemma_scan_street_order(lines.drop_last());
        let st = scan_lines(lines);
        assert(scan_level(prev) <= scan_level(st));
        if st.actions.len() > prev.actions.len() {
            assert(!prev.showdown);
            assert(street_order(current_street(prev)) == scan_level(prev));
            assert forall|i: int| 0 <= i < st.actions.len() implies street_order(#[trigger] st.actions[i].2)
                <= scan_level(st) by {
                if i < prev.actions.len() {
                    assert(st.actions[i] == prev.actions[i]);
                }
            }
            assert forall|i: int, j: int|
                0 <= i < j < st.actions.len() implies street_order(#[trigger] st.actions[i].2) <= street_order(
                #[trigger] st.actions[j].2,
            ) by {
                assert(st.actions[i] == prev.actions[i]);
                if j < prev.actions.len() {
                    assert(st.actions[j] == prev.actions[j]);
                }
            }
        } else {
            assert(st.actions == prev.actions);
        }
    }
}

proof fn lemma_map_actions_from(names: Seq<Seq<char>>, acts: Seq<(Seq<char>, ActionSpec, Street)>)
    ensures
        forall|k: int| 0 <= k < map_actions(names, acts).len() ==> exists|j: int|
            0 <= j < acts.len() && (#[trigger] map_actions(names, acts)[k]).0 == acts[j].2,
    decreases acts.len(),
{
    if acts.len() > 0 {
        let p = acts.drop_last();
        lemma_map_actions_from(names, p);
        let m = map_actions(names, acts);
        let mp = map_actions(names, p);
        assert forall|k: int| 0 <= k < m.len() implies exists|j: int|
            0 <= j < acts.len() && (#[trigger] m[k]).0 == acts[j].2 by {
            if k < mp.len() {
                assert(m[k] == mp[k]);
                let j = choose|j: int| 0 <= j < p.len() && mp[k].0 == p[j].2;
                assert(acts[j] == p[j]);
            } else {
                assert(m[k].0 == acts[acts.len() - 1].2);
            }
        }
    }
}

proof fn lemma_map_actions_sorted(names: Seq<Seq<char>>, acts: Seq<(Seq<char>, ActionSpec, Street)>)
    requires
        forall|i: int, j: int|
            0 <= i < j < acts.len() ==> street_order(#[trigger] acts[i].2) <= street_order(#[trigger] acts[j].2),
    ensures
        forall|i: int, j: int|
            0 <= i < j < map_actions(names, acts).len() ==> street_order(#[trigger] map_actions(names, acts)[i].0)
                <= street_order(#[trigger] map_actions(names, acts)[j].0),
    decreases acts.len(),
{
    if acts.len() > 0 {
        let p = acts.drop_last();
        assert forall|i: int, j: int| 0 <= i < j < p.len() implies street_order(#[trigger] p[i].2)
            <= street_order(#[trigger] p[j].2) by {
            assert(p[i] == acts[i] && p[j] == acts[j]);
        }
        lemma_map_actions_sorted(names, p);
        lemma_map_actions_from(names, p);
        let m = map_actions(names, acts);
        let mp = map_actions(names, p);
        assert forall|i: int, j: int| 0 <= i < j < m.len() implies street_order(#[trigger] m[i].0)
            <= street_order(#[trigger] m[j].0) by {
            assert(m[i] == mp[i]);
            if j < mp.len() {
                assert(m[j] == mp[j]);
            } else {
                let k = choose|k: int| 0 <= k < p.len() && mp[i].0 == p[k].2;
                assert(p[k] == acts[k]);
                assert(m[j].0 == acts[acts.len() - 1].2);
            }
        }
    }
}

/// The actions of a parsed hand come in the order of the streets: no action is recorded
/// on an earlier street than an action before it (preflop, then flop, turn, river).
pub proof fn lemma_parsed_actions_in_street_order(text: Seq<char>)
    ensures
        parse_spec(text) matches Ok(rec) ==> forall|i: int, j: int|
            0 <= i < j < rec.actions.len() ==> street_order(#[trigger] rec.actions[i].0) <= street_order(
                #[trigger] rec.actions[j].0,
            ),
{
    let st = scan_lines(lines_of(text));
    lemma_scan_street_order(lines_of(text));
    let players = players_of(seats_by_number(st.seats), st.hero_name, st.hero_cards);
    lemma_map_actions_sorted(player_names(players), st.actions);
}

} // verus!


