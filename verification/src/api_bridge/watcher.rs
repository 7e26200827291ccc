//! Splitting a hand-history file into the text of its hands.
use vstd::prelude::*;
use crate::api_bridge::hand_parser::{is_header_line, plain_header, stars_header};
use crate::text::{char_vecs_view, has_prefix, is_ws, lemma_trim_nonempty, lines_of, split_lines, starts_with, str_to_chars, string_from_chars, trim_bounds, trim_seq};

verus! {

/// The hands read so far and the text of the hand being read.
pub type BlockState = (Seq<Seq<char>>, Seq<char>);

/// What one line does: a header line closes the hand being read when that hand has any
/// non-blank text; every line is then added to the current hand with a line feed.
pub open spec fn block_step(st: BlockState, line: Seq<char>) -> BlockState {
    if is_header_line(line) && trim_seq(st.1).len() > 0 {
        (st.0.push(st.1), line.push('\n'))
    } else {
        (st.0, st.1 + line.push('\n'))
    }
}

/// The state after the given lines.
pub open spec fn blocks_after(lines: Seq<Seq<char>>) -> BlockState
    decreases lines.len(),
{
    if lines.len() == 0 {
        (Seq::empty(), Seq::empty())
    } else {
        block_step(blocks_after(lines.drop_last()), lines.last())
    }
}

/// The hands of a hand-history text: the blocks that start at header lines, each line
/// ended by a line feed, the last block kept only when it is not blank.
pub open spec fn hand_blocks(text: Seq<char>) -> Seq<Seq<char>> {
    let st = blocks_after(lines_of(text));
    if trim_seq(st.1).len() > 0 {
        st.0.push(st.1)
    } else {
        st.0
    }
}

/// The views of a vector of strings.
pub open spec fn strings_view(v: Seq<String>) -> Seq<Seq<char>> {
    v.map_values(|s: String| s@)
}

/// Whether `cs` holds a non-whitespace character.
fn has_text(cs: &Vec<char>) -> (b: bool)
    ensures
        b == (trim_seq(cs@).len() > 0),
{
    let (a, b) = trim_bounds(cs.as_slice());
    a < b
}

/// Splits multi-hand text into the text of each hand.
pub fn split_hand_blocks(text: &str) -> (r: Vec<String>)
    ensures
        strings_view(r@) == hand_blocks(text@),
{
    let cs = str_to_chars(text);
    let lines = split_lines(&cs);
    let ghost lv = char_vecs_view(lines@);
    let stars = str_to_chars("PokerStars Hand #");
    let plain = str_to_chars("Hand #");
    let mut blocks: Vec<String> = Vec::new();
    let mut current: Vec<char> = Vec::new();
    proof {
        assert(lv.take(0) =~= Seq::<Seq<char>>::empty());
        assert(strings_view(blocks@) =~= Seq::<Seq<char>>::empty());
    }
    let n = lines.len();
    let mut i: usize = 0;
    while i < n
        invariant
            n == lines@.len(),
            lv == char_vecs_view(lines@),
            lv == lines_of(text@),
            stars@ == "PokerStars Hand #"@,
            plain@ == "Hand #"@,
            i <= n,
            (strings_view(blocks@), current@) == blocks_after(lv.take(i as int)),
        decreases n - i,
    {
        let line = &lines[i];
        proof {
            assert(lv[i as int] == line@);
            assert(lv.take(i + 1).drop_last() =~= lv.take(i as int));
            assert(lv.take(i + 1).last() == line@);
        }
        if (starts_with(line, &stars) || starts_with(line, &plain)) && has_text(&current) {
            let ghost before = strings_view(blocks@);
            let done = string_from_chars(current.as_slice());
            blocks.push(done);
            current = Vec::new();
            proof {
                assert(strings_view(blocks@) =~= before.push(done@));
            }
        }
        let ghost cur0 = current@;
        let m = line.len();
        let mut k: usize = 0;
        while k < m
            invariant
                m == line@.len(),
                k <= m,
                current@ == cur0 + line@.take(k as int),
            decreases m - k,
        {
            current.push(line[k]);
            proof {
                assert(line@.take(k + 1) =~= line@.take(k as int).push(line@[k as int]));
            }
            k = k + 1;
        }
        current.push('\n');
        proof {
            assert(line@.take(m as int) =~= line@);
            assert(current@ =~= cur0 + line@.push('\n'));
        }
        i = i + 1;
    }
    proof {
        assert(lv.take(n as int) =~= lv);
    }
    if has_text(&current) {
        let ghost before = strings_view(blocks@);
        let last = string_from_chars(current.as_slice());
        blocks.push(last);
        proof {
            assert(strings_view(blocks@) =~= before.push(last@));
        }
    }
    blocks
}


/// Every block that `split_hand_blocks` yields holds some non-whitespace text.
pub proof fn lemma_hand_blocks_not_blank(text: Seq<char>)
    ensures
        forall|i: int| 0 <= i < hand_blocks(text).len() ==> trim_seq(#[trigger] hand_blocks(text)[i]).len() > 0,
{
    lemma_blocks_after_not_blank(lines_of(text));
}

proof fn lemma_blocks_after_not_blank(lines: Seq<Seq<char>>)
    ensures
        forall|i: int| 0 <= i < blocks_after(lines).0.len() ==> trim_seq(#[trigger] blocks_after(lines).0[i]).len() > 0,
    decreases lines.len(),
{
    if lines.len() > 0 {
        let prev = blocks_after(lines.drop_last());
        lemma_blocks_after_not_blank(lines.drop_last());
        let st = blocks_after(lines);
        assert forall|i: int| 0 <= i < st.0.len() implies trim_seq(#[trigger] st.0[i]).len() > 0 by {
            if i < prev.0.len() {
                assert(st.0[i] == prev.0[i]);
            } else {
                assert(st.0[i] == prev.1);
            }
        }
    }
}


/// The lines, each followed by a line feed, one after the other.
pub open spec fn joined_lines(lines: Seq<Seq<char>>) -> Seq<char>
    decreases lines.len(),
{
    if lines.len() == 0 {
        Seq::empty()
    } else {
        joined_lines(lines.drop_last()) + lines.last().push('\n')
    }
}

/// The blocks, one after the other.
pub open spec fn concat_blocks(blocks: Seq<Seq<char>>) -> Seq<char>
    decreases blocks.len(),
{
    if blocks.len() == 0 {
        Seq::empty()
    } else {
        concat_blocks(blocks.drop_last()) + blocks.last()
    }
}

proof fn lemma_blocks_after_joined(lines: Seq<Seq<char>>)
    ensures
        concat_blocks(blocks_after(lines).0) + blocks_after(lines).1 == joined_lines(lines),
    decreases lines.len(),
{
    if lines.len() == 0 {
        assert(concat_blocks(Seq::<Seq<char>>::empty()) + Seq::<char>::empty() =~= Seq::<char>::empty());
    } else {
        let prev = blocks_after(lines.drop_last());
        lemma_blocks_after_joined(lines.drop_last());
        let line = lines.last();
        if is_header_line(line) && trim_seq(prev.1).len() > 0 {
            assert(prev.0.push(prev.1).drop_last() =~= prev.0);
            assert(concat_blocks(prev.0.push(prev.1)) + line.push('\n') =~= concat_blocks(prev.0) + prev.1 + line.push('\n'));
        } else {
            assert(concat_blocks(prev.0) + (prev.1 + line.push('\n')) =~= concat_blocks(prev.0) + prev.1 + line.push('\n'));
        }
    }
}

/// The text starts with a header line followed by a line feed.
pub open spec fn starts_with_header(b: Seq<char>) -> bool {
    exists|l: Seq<char>| #[trigger] is_header_line(l) && b.len() > l.len() && b.take(l.len() as int + 1) == l.push('\n')
}

proof fn lemma_blocks_after_headers(lines: Seq<Seq<char>>)
    ensures
        forall|i: int| 1 <= i < blocks_after(lines).0.len() ==> starts_with_header(#[trigger] blocks_after(lines).0[i]),
        blocks_after(lines).0.len() >= 1 ==> starts_with_header(blocks_after(lines).1),
    decreases lines.len(),
{
    if lines.len() > 0 {
        let prev = blocks_after(lines.drop_last());
        lemma_blocks_after_headers(lines.drop_last());
        let line = lines.last();
        let st = blocks_after(lines);
        if is_header_line(line) && trim_seq(prev.1).len() > 0 {
            assert forall|i: int| 1 <= i < st.0.len() implies starts_with_header(#[trigger] st.0[i]) by {
                if i < prev.0.len() {
                    assert(st.0[i] == prev.0[i]);
                } else {
                    assert(st.0[i] == prev.1);
                }
            }
            assert(st.1 == line.push('\n'));
            assert(st.1.take(line.len() as int + 1) =~= line.push('\n'));
        } else {
            assert(st.0 == prev.0);
            if prev.0.len() >= 1 {
                let l = choose|l: Seq<char>| #[trigger] is_header_line(l) && prev.1.len() > l.len() && prev.1.take(l.len() as int + 1) == l.push('\n');
                assert(st.1.take(l.len() as int + 1) =~= prev.1.take(l.len() as int + 1));
            }
        }
    }
}

/// Every hand block after the first begins with a header line (`PokerStars Hand #...` or
/// `Hand #...`) followed by a line feed: a new block is only ever opened at a header line.
pub proof fn lemma_hand_blocks_start_at_headers(text: Seq<char>)
    ensures
        forall|i: int| 1 <= i < hand_blocks(text).len() ==> starts_with_header(#[trigger] hand_blocks(text)[i]),
{
    let st = blocks_after(lines_of(text));
    lemma_blocks_after_headers(lines_of(text));
    assert forall|i: int| 1 <= i < hand_blocks(text).len() implies starts_with_header(#[trigger] hand_blocks(text)[i]) by {
        if i < st.0.len() {
            assert(hand_blocks(text)[i] == st.0[i]);
        } else {
            assert(hand_blocks(text)[i] == st.1);
        }
    }
}

/// The number of header lines among the lines.
pub open spec fn header_count(lines: Seq<Seq<char>>) -> nat
    decreases lines.len(),
{
    if lines.len() == 0 {
        0
    } else {
        header_count(lines.drop_last()) + if is_header_line(lines.last()) { 1nat } else { 0nat }
    }
}

/// The lines before the first header line (all of them when there is none).
pub open spec fn preface_lines(lines: Seq<Seq<char>>) -> Seq<Seq<char>>
    decreases lines.len(),
{
    if lines.len() == 0 {
        lines
    } else if header_count(lines.drop_last()) > 0 {
        preface_lines(lines.drop_last())
    } else if is_header_line(lines.last()) {
        lines.drop_last()
    } else {
        lines
    }
}

proof fn lemma_header_not_blank(line: Seq<char>)
    requires
        is_header_line(line),
    ensures
        trim_seq(line.push('\n')).len() > 0,
{
    reveal_strlit("PokerStars Hand #");
    reveal_strlit("Hand #");
    let s = line.push('\n');
    if has_prefix(line, stars_header()) {
        assert(line[0] == line.subrange(0, stars_header().len() as int)[0]);
        assert(line[0] == 'P');
    } else {
        assert(line[0] == line.subrange(0, plain_header().len() as int)[0]);
        assert(line[0] == 'H');
    }
    assert(s[0] == line[0]);
    assert(!is_ws(s[0]));
    lemma_trim_nonempty(s);
}

proof fn lemma_not_blank_append(s: Seq<char>, t: Seq<char>)
    requires
        trim_seq(s).len() > 0 || trim_seq(t).len() > 0,
    ensures
        trim_seq(s + t).len() > 0,
{
    lemma_trim_nonempty(s);
    lemma_trim_nonempty(t);
    lemma_trim_nonempty(s + t);
    if trim_seq(s).len() > 0 {
        let j = choose|j: int| 0 <= j < s.len() && !is_ws(#[trigger] s[j]);
        assert((s + t)[j] == s[j]);
    } else {
        let j = choose|j: int| 0 <= j < t.len() && !is_ws(#[trigger] t[j]);
        assert((s + t)[s.len() + j] == t[j]);
    }
}

proof fn lemma_blocks_after_count(lines: Seq<Seq<char>>)
    ensures
        header_count(lines) == 0 ==> blocks_after(lines).0.len() == 0 && blocks_after(lines).1 == joined_lines(lines),
        header_count(lines) > 0 ==> trim_seq(blocks_after(lines).1).len() > 0,
        blocks_after(lines).0.len() + (if trim_seq(blocks_after(lines).1).len() > 0 { 1int } else { 0int })
            == header_count(lines) + (if trim_seq(joined_lines(preface_lines(lines))).len() > 0 { 1int } else { 0int }),
    decreases lines.len(),
{
    if lines.len() > 0 {
        let prev_lines = lines.drop_last();
        let prev = blocks_after(prev_lines);
        lemma_blocks_after_count(prev_lines);
        let line = lines.last();
        if is_header_line(line) {
            lemma_header_not_blank(line);
        }
        if header_count(prev_lines) > 0 {
            assert(preface_lines(lines) == preface_lines(prev_lines));
            if !is_header_line(line) {
                lemma_not_blank_append(prev.1, line.push('\n'));
            }
        } else if is_header_line(line) {
            assert(preface_lines(lines) == prev_lines);
            if trim_seq(prev.1).len() == 0 {
                lemma_not_blank_append(prev.1, line.push('\n'));
            }
        } else {
            assert(preface_lines(lines) == lines);
        }
    }
}

/// The number of hand blocks: one per header line, plus one for the text before the first
/// header line when that text holds anything but whitespace (with no header line at all,
/// one block for non-blank text and none for blank text).
pub proof fn lemma_hand_blocks_count(text: Seq<char>)
    ensures
        hand_blocks(text).len() == header_count(lines_of(text)) + (if trim_seq(
            joined_lines(preface_lines(lines_of(text))),
        ).len() > 0 { 1int } else { 0int }),
{
    lemma_blocks_after_count(lines_of(text));
}

/// Nothing of the text is lost or added: when the text's lines hold anything but
/// whitespace, the blocks one after the other are exactly those lines, each followed by a
/// line feed; otherwise there are no blocks at all.
pub proof fn lemma_hand_blocks_concat(text: Seq<char>)
    ensures
        trim_seq(joined_lines(lines_of(text))).len() > 0 ==> concat_blocks(hand_blocks(text)) == joined_lines(
            lines_of(text),
        ),
        trim_seq(joined_lines(lines_of(text))).len() == 0 ==> hand_blocks(text).len() == 0,
{
    let lines = lines_of(text);
    let st = blocks_after(lines);
    lemma_blocks_after_joined(lines);
    lemma_blocks_after_count(lines);
    if trim_seq(st.1).len() > 0 {
        assert(st.0.push(st.1).drop_last() =~= st.0);
        lemma_not_blank_append(concat_blocks(st.0), st.1);
    } else if header_count(lines) == 0 {
        assert(st.0.len() == 0);
        assert(concat_blocks(st.0) =~= Seq::<char>::empty());
        assert(st.1 == joined_lines(lines));
    }
}

/// The lines of the hands read so far and the lines of the hand being read, as
/// `blocks_after` groups them.
pub open spec fn line_groups_after(lines: Seq<Seq<char>>) -> (Seq<Seq<Seq<char>>>, Seq<Seq<char>>)
    decreases lines.len(),
{
    if lines.len() == 0 {
        (Seq::empty(), Seq::empty())
    } else {
        let (g, cur) = line_groups_after(lines.drop_last());
        let line = lines.last();
        if is_header_line(line) && trim_seq(joined_lines(cur)).len() > 0 {
            (g.push(cur), seq![line])
        } else {
            (g, cur.push(line))
        }
    }
}

/// The lines of each hand block of a text.
pub open spec fn hand_block_lines(text: Seq<char>) -> Seq<Seq<Seq<char>>> {
    let g = line_groups_after(lines_of(text));
    if trim_seq(joined_lines(g.1)).len() > 0 {
        g.0.push(g.1)
    } else {
        g.0
    }
}

proof fn lemma_headers_not_blank(ls: Seq<Seq<char>>)
    requires
        header_count(ls) > 0,
    ensures
        trim_seq(joined_lines(ls)).len() > 0,
    decreases ls.len(),
{
    let line = ls.last();
    if is_header_line(line) {
        lemma_header_not_blank(line);
        lemma_not_blank_append(joined_lines(ls.drop_last()), line.push('\n'));
    } else {
        lemma_headers_not_blank(ls.drop_last());
        lemma_not_blank_append(joined_lines(ls.drop_last()), line.push('\n'));
    }
}

proof fn lemma_line_groups(lines: Seq<Seq<char>>)
    ensures
        blocks_after(lines).1 == joined_lines(line_groups_after(lines).1),
        blocks_after(lines).0.len() == line_groups_after(lines).0.len(),
        forall|k: int| 0 <= k < blocks_after(lines).0.len() ==> #[trigger] blocks_after(lines).0[k] == joined_lines(
            line_groups_after(lines).0[k],
        ),
        forall|k: int| 0 <= k < line_groups_after(lines).0.len() ==> header_count(
            #[trigger] line_groups_after(lines).0[k],
        ) <= 1,
        header_count(line_groups_after(lines).1) <= 1,
    decreases lines.len(),
{
    if lines.len() == 0 {
        assert(joined_lines(Seq::<Seq<char>>::empty()) =~= Seq::<char>::empty());
    } else {
        let prev_lines = lines.drop_last();
        lemma_line_groups(prev_lines);
        let (g, cur) = line_groups_after(prev_lines);
        let prev = blocks_after(prev_lines);
        let line = lines.last();
        assert(cur.push(line).drop_last() =~= cur);
        assert(joined_lines(cur.push(line)) == joined_lines(cur) + line.push('\n'));
        if is_header_line(line) && trim_seq(joined_lines(cur)).len() > 0 {
            let one = seq![line];
            assert(one.drop_last() =~= Seq::<Seq<char>>::empty());
            assert(one.last() == line);
            assert(joined_lines(Seq::<Seq<char>>::empty()) =~= Seq::<char>::empty());
            assert(joined_lines(one) == joined_lines(one.drop_last()) + line.push('\n'));
            assert(joined_lines(one) =~= line.push('\n'));
            assert(header_count(one.drop_last()) == 0);
            assert(header_count(one) == 1);
            let ng = g.push(cur);
            assert forall|k: int| 0 <= k < ng.len() implies header_count(#[trigger] ng[k]) <= 1 by {
                if k < g.len() {
                    assert(ng[k] == g[k]);
                }
            }
            let nb = prev.0.push(prev.1);
            assert forall|k: int| 0 <= k < nb.len() implies #[trigger] nb[k] == joined_lines(ng[k]) by {
                if k < g.len() {
                    assert(nb[k] == prev.0[k]);
                    assert(ng[k] == g[k]);
                }
            }
        } else {
            if is_header_line(line) {
                if header_count(cur) > 0 {
                    lemma_headers_not_blank(cur);
                }
                assert(header_count(cur) == 0);
            }
            assert(header_count(cur.push(line)) == header_count(cur) + if is_header_line(line) { 1nat } else { 0nat });
        }
    }
}

/// Each hand block is the text of a run of the input's lines, each followed by a line
/// feed, and no run holds more than one header line.
pub proof fn lemma_hand_blocks_line_runs(text: Seq<char>)
    ensures
        hand_blocks(text).len() == hand_block_lines(text).len(),
        forall|k: int| 0 <= k < hand_blocks(text).len() ==> #[trigger] hand_blocks(text)[k] == joined_lines(
            hand_block_lines(text)[k],
        ),
        forall|k: int| 0 <= k < hand_block_lines(text).len() ==> header_count(#[trigger] hand_block_lines(text)[k])
            <= 1,
{
    let lines = lines_of(text);
    lemma_line_groups(lines);
    let st = blocks_after(lines);
    let g = line_groups_after(lines);
    assert forall|k: int| 0 <= k < hand_blocks(text).len() implies #[trigger] hand_blocks(text)[k] == joined_lines(
        hand_block_lines(text)[k],
    ) by {
        if k < st.0.len() {
            assert(hand_blocks(text)[k] == st.0[k]);
            assert(hand_block_lines(text)[k] == g.0[k]);
        } else {
            assert(hand_blocks(text)[k] == st.1);
            assert(hand_block_lines(text)[k] == g.1);
        }
    }
    assert forall|k: int| 0 <= k < hand_block_lines(text).len() implies header_count(
        #[trigger] hand_block_lines(text)[k],
    ) <= 1 by {
        if k < g.0.len() {
            assert(hand_block_lines(text)[k] == g.0[k]);
        } else {
            assert(hand_block_lines(text)[k] == g.1);
        }
    }
}

} // verus!


