//! Character-level text helpers shared by the parsers of the library.
use vstd::prelude::*;

verus! {

/// Appends one character to a `String`.
///
/// Calls `String::push`, which, as its documentation says, appends the given
/// `char` to the end of the string; the contract claims exactly that.
#[verifier::external_body]
pub fn push_char(s: &mut String, c: char)
    ensures
        final(s)@ == old(s)@.push(c),
{
    s.push(c);
}

/// Appends every character of `cs` to `s`, in order.
pub fn push_chars(s: &mut String, cs: &[char])
    ensures
        final(s)@ == old(s)@ + cs@,
{
    let n = cs.len();
    let mut i: usize = 0;
    while i < n
        invariant
            n == cs@.len(),
            i <= n,
            s@ == old(s)@ + cs@.subrange(0, i as int),
        decreases n - i,
    {
        push_char(s, cs[i]);
        proof {
            assert(cs@.subrange(0, i as int + 1) =~= cs@.subrange(0, i as int).push(cs@[i as int]));
        }
        i = i + 1;
    }
    proof {
        assert(cs@.subrange(0, n as int) =~= cs@);
    }
}

/// Builds a `String` holding the given characters.
pub fn string_from_chars(cs: &[char]) -> (r: String)
    ensures
        r@ == cs@,
{
    let mut s = String::new();
    push_chars(&mut s, cs);
    s
}

/// Collects the characters of a string slice into a vector.
pub fn str_to_chars(s: &str) -> (r: Vec<char>)
    ensures
        r@ == s@,
{
    let mut v: Vec<char> = Vec::new();
    for c in it: s.chars()
        invariant
            it.seq() == s@,
            v@ == s@.take(it.index() as int),
    {
        proof {
            assert(s@.take(it.index() as int + 1) =~= s@.take(it.index() as int).push(c));
        }
        v.push(c);
    }
    proof {
        assert(v@ =~= s@);
    }
    v
}

/// Whether `c` has the Unicode `White_Space` property, the set that `char::is_whitespace`
/// and `str::trim` use.
pub open spec fn is_ws(c: char) -> bool {
    let u = c as u32;
    (0x09 <= u && u <= 0x0D) || u == 0x20 || u == 0x85 || u == 0xA0 || u == 0x1680
        || (0x2000 <= u && u <= 0x200A) || u == 0x2028 || u == 0x2029 || u == 0x202F
        || u == 0x205F || u == 0x3000
}

/// Executable test for the Unicode `White_Space` property.
pub fn is_whitespace(c: char) -> (b: bool)
    ensures
        b == is_ws(c),
{
    let u = c as u32;
    (0x09 <= u && u <= 0x0D) || u == 0x20 || u == 0x85 || u == 0xA0 || u == 0x1680
        || (0x2000 <= u && u <= 0x200A) || u == 0x2028 || u == 0x2029 || u == 0x202F
        || u == 0x205F || u == 0x3000
}

/// Number of leading whitespace characters of `s`.
pub open spec fn leading_ws(s: Seq<char>) -> nat
    decreases s.len(),
{
    if s.len() > 0 && is_ws(s[0]) {
        1 + leading_ws(s.drop_first())
    } else {
        0
    }
}

/// Number of trailing whitespace characters of `s`.
pub open spec fn trailing_ws(s: Seq<char>) -> nat
    decreases s.len(),
{
    if s.len() > 0 && is_ws(s.last()) {
        1 + trailing_ws(s.drop_last())
    } else {
        0
    }
}

/// `s` with leading and trailing whitespace removed, as `str::trim` does.
pub open spec fn trim_seq(s: Seq<char>) -> Seq<char> {
    let front = s.skip(leading_ws(s) as int);
    front.take(front.len() - trailing_ws(front))
}

proof fn lemma_leading_ws(s: Seq<char>, i: int)
    requires
        0 <= i <= s.len(),
        forall|j: int| 0 <= j < i ==> is_ws(#[trigger] s[j]),
        i == s.len() || !is_ws(s[i]),
    ensures
        leading_ws(s) == i,
    decreases i,
{
    if i > 0 {
        lemma_leading_ws(s.drop_first(), i - 1);
    }
}

proof fn lemma_trailing_ws(s: Seq<char>, k: int)
    requires
        0 <= k <= s.len(),
        forall|j: int| s.len() - k <= j < s.len() ==> is_ws(#[trigger] s[j]),
        k == s.len() || !is_ws(s[s.len() - k - 1]),
    ensures
        trailing_ws(s) == k,
    decreases k,
{
    if k > 0 {
        lemma_trailing_ws(s.drop_last(), k - 1);
    }
}

/// The bounds `(start, end)` of the trimmed part of a character sequence.
pub fn trim_bounds(cs: &[char]) -> (r: (usize, usize))
    ensures
        r.0 <= r.1 <= cs@.len(),
        cs@.subrange(r.0 as int, r.1 as int) == trim_seq(cs@),
{
    let n = cs.len();
    let mut start: usize = 0;
    while start < n && is_whitespace(cs[start])
        invariant
            n == cs@.len(),
            start <= n,
            forall|j: int| 0 <= j < start ==> is_ws(#[trigger] cs@[j]),
        decreases n - start,
    {
        start = start + 1;
    }
    proof {
        lemma_leading_ws(cs@, start as int);
    }
    let mut end: usize = n;
    while end > start && is_whitespace(cs[end - 1])
        invariant
            n == cs@.len(),
            start <= end <= n,
            forall|j: int| end <= j < n ==> is_ws(#[trigger] cs@[j]),
        decreases end - start,
    {
        end = end - 1;
    }
    proof {
        let front = cs@.skip(start as int);
        assert forall|j: int| front.len() - (n - end) <= j < front.len() implies is_ws(
            #[trigger] front[j],
        ) by {
            assert(front[j] == cs@[j + start]);
        }
        if end > start {
            assert(front[front.len() - (n - end) - 1] == cs@[end - 1]);
        }
        lemma_trailing_ws(front, (n - end) as int);
        assert(cs@.subrange(start as int, end as int) =~= front.take(
            front.len() - trailing_ws(front),
        ));
    }
    (start, end)
}

/// Returns `s` with leading and trailing Unicode whitespace removed.
pub fn trim_str(s: &str) -> (r: &str)
    ensures
        r@ == trim_seq(s@),
{
    let cs = str_to_chars(s);
    let (start, end) = trim_bounds(cs.as_slice());
    s.substring_char(start, end)
}

/// Position of the first `c` in `s`, or -1.
pub open spec fn first_index_of(s: Seq<char>, c: char) -> int
    decreases s.len(),
{
    if s.len() == 0 {
        -1
    } else if s[0] == c {
        0
    } else {
        let r = first_index_of(s.drop_first(), c);
        if r < 0 {
            -1
        } else {
            r + 1
        }
    }
}

/// `first_index_of` finds the first occurrence, if any.
pub proof fn lemma_first_index_of(s: Seq<char>, c: char)
    ensures
        -1 <= first_index_of(s, c) < s.len(),
        first_index_of(s, c) >= 0 ==> s[first_index_of(s, c)] == c,
        forall|i: int| 0 <= i < s.len() && (first_index_of(s, c) < 0 || i < first_index_of(s, c)) ==> s[i] != c,
    decreases s.len(),
{
    if s.len() > 0 {
        lemma_first_index_of(s.drop_first(), c);
        assert forall|i: int| 0 <= i < s.len() && (first_index_of(s, c) < 0 || i < first_index_of(s, c)) implies s[i] != c by {
            if i > 0 {
                assert(s[i] == s.drop_first()[i - 1]);
            }
        }
    }
}

/// A found position as an integer, or -1 when nothing was found.
pub open spec fn pos_or_none(r: Option<usize>) -> int {
    match r {
        Some(i) => i as int,
        None => -1,
    }
}

/// Index of the first `c` in `cs`, if any.
pub fn find_char(cs: &Vec<char>, c: char) -> (r: Option<usize>)
    ensures
        pos_or_none(r) == first_index_of(cs@, c),
        r matches Some(i) ==> i < cs@.len(),
{
    proof {
        lemma_first_index_of(cs@, c);
    }
    let n = cs.len();
    let mut i: usize = 0;
    while i < n
        invariant
            n == cs@.len(),
            i <= n,
            forall|j: int| 0 <= j < i ==> cs@[j] != c,
            -1 <= first_index_of(cs@, c) < cs@.len(),
            first_index_of(cs@, c) >= 0 ==> cs@[first_index_of(cs@, c)] == c,
            forall|j: int| 0 <= j < cs@.len() && (first_index_of(cs@, c) < 0 || j < first_index_of(cs@, c)) ==> cs@[j] != c,
        decreases n - i,
    {
        if cs[i] == c {
            return Some(i);
        }
        i = i + 1;
    }
    None
}

/// The characters of `cs` in `[lo, hi)`.
pub fn chars_between(cs: &Vec<char>, lo: usize, hi: usize) -> (r: Vec<char>)
    requires
        lo <= hi <= cs@.len(),
    ensures
        r@ == cs@.subrange(lo as int, hi as int),
{
    let mut r: Vec<char> = Vec::new();
    let mut i = lo;
    while i < hi
        invariant
            lo <= i <= hi,
            hi <= cs@.len(),
            r@ == cs@.subrange(lo as int, i as int),
        decreases hi - i,
    {
        r.push(cs[i]);
        proof {
            assert(cs@.subrange(lo as int, i + 1) =~= cs@.subrange(lo as int, i as int).push(cs@[i as int]));
        }
        i = i + 1;
    }
    r
}

/// The trimmed characters of `cs` in `[lo, hi)`.
pub fn trimmed_between(cs: &Vec<char>, lo: usize, hi: usize) -> (r: Vec<char>)
    requires
        lo <= hi <= cs@.len(),
    ensures
        r@ == trim_seq(cs@.subrange(lo as int, hi as int)),
        r@.len() <= hi - lo,
{
    let piece = chars_between(cs, lo, hi);
    let (a, b) = trim_bounds(piece.as_slice());
    chars_between(&piece, a, b)
}


/// Position of the last `c` in `s`, or -1.
pub open spec fn last_index_of(s: Seq<char>, c: char) -> int
    decreases s.len(),
{
    if s.len() == 0 {
        -1
    } else if s.last() == c {
        s.len() - 1
    } else {
        last_index_of(s.drop_last(), c)
    }
}

/// `last_index_of` finds the last occurrence, if any.
pub proof fn lemma_last_index_of(s: Seq<char>, c: char)
    ensures
        -1 <= last_index_of(s, c) < s.len(),
        last_index_of(s, c) >= 0 ==> s[last_index_of(s, c)] == c,
        forall|i: int| last_index_of(s, c) < i < s.len() ==> s[i] != c,
    decreases s.len(),
{
    if s.len() > 0 && s.last() != c {
        lemma_last_index_of(s.drop_last(), c);
        assert forall|i: int| last_index_of(s, c) < i < s.len() implies s[i] != c by {
            if i < s.len() - 1 {
                assert(s[i] == s.drop_last()[i]);
            }
        }
    }
}

/// Index of the last `c` in `cs`, if any.
pub fn find_last_char(cs: &Vec<char>, c: char) -> (r: Option<usize>)
    ensures
        pos_or_none(r) == last_index_of(cs@, c),
        r matches Some(i) ==> i < cs@.len(),
{
    let mut i: usize = cs.len();
    proof {
        assert(cs@.take(i as int) =~= cs@);
    }
    while i > 0
        invariant
            i <= cs@.len(),
            last_index_of(cs@, c) == last_index_of(cs@.take(i as int), c),
        decreases i,
    {
        proof {
            assert(cs@.take(i as int).drop_last() =~= cs@.take(i - 1));
            lemma_last_index_of(cs@.take(i as int), c);
        }
        if cs[i - 1] == c {
            return Some(i - 1);
        }
        i = i - 1;
    }
    None
}

/// `s` begins with `p`.
pub open spec fn has_prefix(s: Seq<char>, p: Seq<char>) -> bool {
    p.len() <= s.len() && s.subrange(0, p.len() as int) == p
}

/// `p` occurs in `s` at position `i`.
pub open spec fn occurs_at(s: Seq<char>, p: Seq<char>, i: int) -> bool {
    0 <= i && i + p.len() <= s.len() && s.subrange(i, i + p.len()) == p
}

/// Position of the first occurrence of `p` in `s` at or after `i`, or -1.
pub open spec fn find_sub_from(s: Seq<char>, p: Seq<char>, i: int) -> int
    decreases s.len() + 1 - i,
{
    if i < 0 || i + p.len() > s.len() {
        -1
    } else if occurs_at(s, p, i) {
        i
    } else {
        find_sub_from(s, p, i + 1)
    }
}

/// Position of the first occurrence of `p` in `s`, or -1, as `str::find` with a string
/// pattern gives it.
pub open spec fn find_sub(s: Seq<char>, p: Seq<char>) -> int {
    find_sub_from(s, p, 0)
}

/// `p` occurs in `s`.
pub open spec fn contains_sub(s: Seq<char>, p: Seq<char>) -> bool {
    find_sub(s, p) >= 0
}

/// `find_sub_from` finds an occurrence at or after `i`, if any.
pub proof fn lemma_find_sub_from(s: Seq<char>, p: Seq<char>, i: int)
    requires
        0 <= i,
    ensures
        find_sub_from(s, p, i) == -1 || (i <= find_sub_from(s, p, i) && occurs_at(s, p, find_sub_from(s, p, i))),
    decreases s.len() + 1 - i,
{
    if i + p.len() <= s.len() && !occurs_at(s, p, i) {
        lemma_find_sub_from(s, p, i + 1);
    }
}

/// Whether `p` occurs in `s` at position `i`.
fn occurs_at_exec(s: &Vec<char>, p: &Vec<char>, i: usize) -> (b: bool)
    requires
        i + p@.len() <= s@.len(),
    ensures
        b == occurs_at(s@, p@, i as int),
{
    let m = p.len();
    let n = s.len();
    let mut k: usize = 0;
    while k < m
        invariant
            m == p@.len(),
            n == s@.len(),
            i + m <= n,
            k <= m,
            forall|j: int| 0 <= j < k ==> s@[i + j] == p@[j],
        decreases m - k,
    {
        if s[i + k] != p[k] {
            proof {
                assert(s@.subrange(i as int, i + m)[k as int] != p@[k as int]);
            }
            return false;
        }
        k = k + 1;
    }
    proof {
        assert(s@.subrange(i as int, i + m) =~= p@);
    }
    true
}

/// Whether `s` begins with `p`.
pub fn starts_with(s: &Vec<char>, p: &Vec<char>) -> (b: bool)
    ensures
        b == has_prefix(s@, p@),
{
    if p.len() > s.len() {
        return false;
    }
    occurs_at_exec(s, p, 0)
}

/// Position of the first occurrence of `p` in `s`, if any.
pub fn find_substr(s: &Vec<char>, p: &Vec<char>) -> (r: Option<usize>)
    ensures
        pos_or_none(r) == find_sub(s@, p@),
        r matches Some(i) ==> occurs_at(s@, p@, i as int),
{
    proof {
        lemma_find_sub_from(s@, p@, 0);
    }
    let n = s.len();
    let m = p.len();
    if m > n {
        return None;
    }
    if m == 0 {
        proof {
            assert(s@.subrange(0, 0) =~= p@);
        }
        return Some(0);
    }
    let mut i: usize = 0;
    while i <= n - m
        invariant
            n == s@.len(),
            m == p@.len(),
            1 <= m <= n,
            i <= n,
            find_sub_from(s@, p@, 0) == find_sub_from(s@, p@, i as int),
        decreases n - i,
    {
        if occurs_at_exec(s, p, i) {
            return Some(i);
        }
        i = i + 1;
    }
    None
}

/// Whether `p` occurs in `s`.
pub fn contains_substr(s: &Vec<char>, p: &Vec<char>) -> (b: bool)
    ensures
        b == contains_sub(s@, p@),
{
    find_substr(s, p).is_some()
}

/// End of the run of non-whitespace characters that starts at `i`.
pub open spec fn word_end(s: Seq<char>, i: int) -> int
    decreases s.len() - i,
{
    if i < 0 || i >= s.len() || is_ws(s[i]) {
        i
    } else {
        word_end(s, i + 1)
    }
}

/// `word_end` never moves backwards and stops at whitespace or the end.
pub proof fn lemma_word_end(s: Seq<char>, i: int)
    requires
        0 <= i <= s.len(),
    ensures
        i <= word_end(s, i) <= s.len(),
        word_end(s, i) < s.len() ==> is_ws(s[word_end(s, i)]),
        forall|k: int| i <= k < word_end(s, i) ==> !is_ws(#[trigger] s[k]),
    decreases s.len() - i,
{
    if i < s.len() && !is_ws(s[i]) {
        lemma_word_end(s, i + 1);
    }
}

/// The whitespace-separated words of `s` from position `i` on, as
/// `str::split_whitespace` yields them.
pub open spec fn words_from(s: Seq<char>, i: int) -> Seq<Seq<char>>
    decreases s.len() - i,
{
    if i < 0 || i >= s.len() {
        Seq::empty()
    } else if is_ws(s[i]) {
        words_from(s, i + 1)
    } else {
        let j = word_end(s, i + 1);
        proof {
            lemma_word_end(s, i + 1);
        }
        seq![s.subrange(i, j)] + words_from(s, j)
    }
}

/// The whitespace-separated words of `s`.
pub open spec fn words(s: Seq<char>) -> Seq<Seq<char>> {
    words_from(s, 0)
}

/// The views of a vector of character vectors.
pub open spec fn char_vecs_view(v: Seq<Vec<char>>) -> Seq<Seq<char>> {
    v.map_values(|w: Vec<char>| w@)
}

/// Splits `cs` into its whitespace-separated words.
pub fn split_words(cs: &Vec<char>) -> (r: Vec<Vec<char>>)
    ensures
        char_vecs_view(r@) == words(cs@),
{
    let n = cs.len();
    let mut out: Vec<Vec<char>> = Vec::new();
    let mut i: usize = 0;
    let ghost s = cs@;
    proof {
        assert(char_vecs_view(out@) + words_from(s, 0) =~= words_from(s, 0));
    }
    while i < n
        invariant
            n == cs@.len(),
            s == cs@,
            i <= n,
            char_vecs_view(out@) + words_from(s, i as int) == words_from(s, 0),
        decreases n - i,
    {
        if is_whitespace(cs[i]) {
            i = i + 1;
        } else {
            let mut j = i + 1;
            while j < n && !is_whitespace(cs[j])
                invariant
                    n == cs@.len(),
                    i < j <= n,
                    forall|k: int| i + 1 <= k < j ==> !is_ws(#[trigger] cs@[k]),
                decreases n - j,
            {
                j = j + 1;
            }
            proof {
                lemma_word_end(s, i + 1);
                if word_end(s, i + 1) < j {
                    assert(is_ws(s[word_end(s, i + 1)]));
                }
                assert(word_end(s, i + 1) == j);
            }
            let w = chars_between(cs, i, j);
            let ghost before = char_vecs_view(out@);
            out.push(w);
            proof {
                assert(char_vecs_view(out@) =~= before.push(w@));
                assert(words_from(s, i as int) == seq![s.subrange(i as int, j as int)] + words_from(s, j as int));
                assert(before + words_from(s, i as int) =~= char_vecs_view(out@) + words_from(s, j as int));
            }
            i = j;
        }
    }
    proof {
        assert(char_vecs_view(out@) + words_from(s, i as int) =~= char_vecs_view(out@));
    }
    out
}

/// `c` is an ASCII decimal digit.
pub open spec fn is_digit(c: char) -> bool {
    '0' <= c && c <= '9'
}

/// Every character of `s` is a decimal digit.
pub open spec fn all_digits(s: Seq<char>) -> bool {
    forall|i: int| 0 <= i < s.len() ==> is_digit(#[trigger] s[i])
}

/// The number that a string of decimal digits denotes.
pub open spec fn digits_value(s: Seq<char>) -> nat
    decreases s.len(),
{
    if s.len() == 0 {
        0
    } else {
        digits_value(s.drop_last()) * 10 + ((s.last() as u32) - ('0' as u32)) as nat
    }
}

/// The value of an unsigned decimal integer literal as `u64::from_str` reads it: an
/// optional `+`, then one or more digits.
pub open spec fn uint_text_value(s: Seq<char>) -> Option<nat> {
    let d = if s.len() > 0 && s[0] == '+' { s.drop_first() } else { s };
    if d.len() > 0 && all_digits(d) {
        Some(digits_value(d))
    } else {
        None
    }
}

/// What `s.parse::<u64>()` gives: the value, or `None` for an error.
pub open spec fn parse_u64_spec(s: Seq<char>) -> Option<u64> {
    match uint_text_value(s) {
        Some(v) => if v <= u64::MAX { Some(v as u64) } else { None },
        None => None,
    }
}

/// What `s.parse::<usize>()` gives: the value, or `None` for an error.
pub open spec fn parse_usize_spec(s: Seq<char>) -> Option<usize> {
    match uint_text_value(s) {
        Some(v) => if v <= usize::MAX { Some(v as usize) } else { None },
        None => None,
    }
}

proof fn lemma_digits_value_grows(s: Seq<char>, i: int)
    requires
        0 <= i <= s.len(),
        all_digits(s),
    ensures
        digits_value(s.take(i)) <= digits_value(s),
    decreases s.len() - i,
{
    if i < s.len() {
        lemma_digits_value_grows(s, i + 1);
        assert(s.take(i + 1).drop_last() =~= s.take(i));
        assert(is_digit(s[i]));
        assert(s.take(i + 1).last() == s[i]);
        assert(digits_value(s.take(i)) <= digits_value(s.take(i + 1)));
    } else {
        assert(s.take(i) =~= s);
    }
}

/// Parses an unsigned decimal integer as `u64::from_str` does.
pub fn parse_u64_chars(cs: &Vec<char>) -> (r: Option<u64>)
    ensures
        r == parse_u64_spec(cs@),
{
    let n = cs.len();
    let mut start: usize = 0;
    if n > 0 && cs[0] == '+' {
        start = 1;
    }
    let ghost d = if cs@.len() > 0 && cs@[0] == '+' { cs@.drop_first() } else { cs@ };
    proof {
        assert(d =~= cs@.subrange(start as int, n as int));
    }
    if start >= n {
        return None;
    }
    let mut acc: u64 = 0;
    let mut i: usize = start;
    while i < n
        invariant
            n == cs@.len(),
            start <= i <= n,
            start < n,
            d == cs@.subrange(start as int, n as int),
            d == (if cs@.len() > 0 && cs@[0] == '+' { cs@.drop_first() } else { cs@ }),
            all_digits(d.take(i - start)),
            acc == digits_value(d.take(i - start)),
        decreases n - i,
    {
        let c = cs[i];
        if !('0' <= c && c <= '9') {
            proof {
                assert(d[i - start] == c);
                assert(!is_digit(d[i - start]));
            }
            return None;
        }
        let digit: u64 = (c as u32 - '0' as u32) as u64;
        proof {
            assert(d.take(i - start + 1).drop_last() =~= d.take(i - start));
            assert(d.take(i - start + 1).last() == c);
        }
        if acc > (u64::MAX - digit) / 10 {
            proof {
                assert(acc * 10 + digit > u64::MAX) by (nonlinear_arith)
                    requires
                        acc > (u64::MAX - digit) / 10,
                        digit <= 9,
                ;
                if all_digits(d) {
                    lemma_digits_value_grows(d, i - start + 1);
                }
            }
            return None;
        }
        acc = acc * 10 + digit;
        i = i + 1;
    }
    proof {
        assert(d.take(n - start) =~= d);
    }
    Some(acc)
}

/// Parses an unsigned decimal integer as `usize::from_str` does.
pub fn parse_usize_chars(cs: &Vec<char>) -> (r: Option<usize>)
    ensures
        r == parse_usize_spec(cs@),
{
    match parse_u64_chars(cs) {
        Some(v) => {
            if v <= usize::MAX as u64 {
                Some(v as usize)
            } else {
                None
            }
        },
        None => None,
    }
}

/// ASCII lower-casing of one character.
pub open spec fn ascii_lower(c: char) -> char {
    if 'A' <= c && c <= 'Z' {
        ((c as u32) + 32) as char
    } else {
        c
    }
}

/// `s` equals the lower-case ASCII word `w`, ignoring ASCII case.
pub open spec fn eq_ignore_case(s: Seq<char>, w: Seq<char>) -> bool {
    s.len() == w.len() && forall|i: int| 0 <= i < s.len() ==> ascii_lower(#[trigger] s[i]) == w[i]
}

/// The digits-and-point part of a decimal literal: `D+`, `D+.D*` or `D*.D+`.
pub open spec fn is_mantissa_text(m: Seq<char>) -> bool {
    let dot = first_index_of(m, '.');
    if dot < 0 {
        m.len() > 0 && all_digits(m)
    } else {
        let a = m.take(dot);
        let b = m.skip(dot + 1);
        all_digits(a) && all_digits(b) && (a.len() > 0 || b.len() > 0)
    }
}

/// The exponent digits of a decimal literal, after the `e`: an optional sign and `D+`.
pub open spec fn is_exponent_text(x: Seq<char>) -> bool {
    let y = if x.len() > 0 && (x[0] == '+' || x[0] == '-') { x.drop_first() } else { x };
    y.len() > 0 && all_digits(y)
}

/// Position of the first `e` or `E` in `s`, or -1.
pub open spec fn first_exp_index(s: Seq<char>) -> int
    decreases s.len(),
{
    if s.len() == 0 {
        -1
    } else if s[0] == 'e' || s[0] == 'E' {
        0
    } else {
        let r = first_exp_index(s.drop_first());
        if r < 0 {
            -1
        } else {
            r + 1
        }
    }
}

/// An unsigned decimal literal: mantissa with an optional exponent.
pub open spec fn is_number_text(b: Seq<char>) -> bool {
    let e = first_exp_index(b);
    if e < 0 {
        is_mantissa_text(b)
    } else {
        is_mantissa_text(b.take(e)) && is_exponent_text(b.skip(e + 1))
    }
}

/// `s` is accepted by `f64::from_str`: the documented grammar
/// `Sign? ( 'inf' | 'infinity' | 'nan' | Number )`, ASCII case ignored, no surrounding
/// whitespace.
pub open spec fn is_float_text(s: Seq<char>) -> bool {
    let b = if s.len() > 0 && (s[0] == '+' || s[0] == '-') { s.drop_first() } else { s };
    eq_ignore_case(b, seq!['i', 'n', 'f']) || eq_ignore_case(
        b,
        seq!['i', 'n', 'f', 'i', 'n', 'i', 't', 'y'],
    ) || eq_ignore_case(b, seq!['n', 'a', 'n']) || is_number_text(b)
}

proof fn lemma_first_exp_index(s: Seq<char>)
    ensures
        -1 <= first_exp_index(s) < s.len(),
        first_exp_index(s) >= 0 ==> (s[first_exp_index(s)] == 'e' || s[first_exp_index(s)] == 'E'),
        forall|i: int| 0 <= i < s.len() && (first_exp_index(s) < 0 || i < first_exp_index(s)) ==> !(s[i] == 'e' || s[i] == 'E'),
    decreases s.len(),
{
    if s.len() > 0 {
        lemma_first_exp_index(s.drop_first());
        assert forall|i: int| 0 <= i < s.len() && (first_exp_index(s) < 0 || i < first_exp_index(s)) implies !(s[i] == 'e' || s[i] == 'E') by {
            if i > 0 {
                assert(s[i] == s.drop_first()[i - 1]);
            }
        }
    }
}

/// Whether every character of `cs[lo..hi]` is a decimal digit.
fn digits_between(cs: &Vec<char>, lo: usize, hi: usize) -> (b: bool)
    requires
        lo <= hi <= cs@.len(),
    ensures
        b == all_digits(cs@.subrange(lo as int, hi as int)),
{
    let mut i = lo;
    while i < hi
        invariant
            lo <= i <= hi,
            hi <= cs@.len(),
            forall|k: int| lo <= k < i ==> is_digit(#[trigger] cs@[k]),
        decreases hi - i,
    {
        if !('0' <= cs[i] && cs[i] <= '9') {
            proof {
                assert(cs@.subrange(lo as int, hi as int)[i - lo] == cs@[i as int]);
            }
            return false;
        }
        i = i + 1;
    }
    proof {
        assert forall|k: int| 0 <= k < hi - lo implies is_digit(#[trigger] cs@.subrange(lo as int, hi as int)[k]) by {
            assert(cs@.subrange(lo as int, hi as int)[k] == cs@[lo + k]);
        }
    }
    true
}

/// Whether `cs[lo..hi]` equals the lower-case ASCII word `w`, ignoring ASCII case.
fn eq_ignore_case_between(cs: &Vec<char>, lo: usize, hi: usize, w: &Vec<char>) -> (b: bool)
    requires
        lo <= hi <= cs@.len(),
    ensures
        b == eq_ignore_case(cs@.subrange(lo as int, hi as int), w@),
{
    if hi - lo != w.len() {
        return false;
    }
    let mut i: usize = 0;
    let m = w.len();
    while i < m
        invariant
            m == w@.len(),
            lo + m == hi,
            hi <= cs@.len(),
            i <= m,
            forall|k: int| 0 <= k < i ==> ascii_lower(#[trigger] cs@[lo + k]) == w@[k],
        decreases m - i,
    {
        let c = cs[lo + i];
        let lc = if 'A' <= c && c <= 'Z' { ((c as u32) + 32) as u8 as char } else { c };
        proof {
            if 'A' <= c && c <= 'Z' {
                assert(((c as u32) + 32) as u8 as char == ((c as u32) + 32) as char);
            }
        }
        if lc != w[i] {
            proof {
                assert(cs@.subrange(lo as int, hi as int)[i as int] == cs@[lo + i]);
            }
            return false;
        }
        i = i + 1;
    }
    proof {
        assert forall|k: int| 0 <= k < hi - lo implies ascii_lower(#[trigger] cs@.subrange(lo as int, hi as int)[k]) == w@[k] by {
            assert(cs@.subrange(lo as int, hi as int)[k] == cs@[lo + k]);
        }
    }
    true
}

/// Whether `cs[lo..hi]` is a mantissa.
fn mantissa_between(cs: &Vec<char>, lo: usize, hi: usize) -> (b: bool)
    requires
        lo <= hi <= cs@.len(),
    ensures
        b == is_mantissa_text(cs@.subrange(lo as int, hi as int)),
{
    let ghost m = cs@.subrange(lo as int, hi as int);
    proof {
        lemma_first_index_of(m, '.');
    }
    let mut i = lo;
    while i < hi && cs[i] != '.'
        invariant
            lo <= i <= hi,
            hi <= cs@.len(),
            m == cs@.subrange(lo as int, hi as int),
            forall|k: int| lo <= k < i ==> cs@[k] != '.',
        decreases hi - i,
    {
        i = i + 1;
    }
    proof {
        if first_index_of(m, '.') >= 0 && first_index_of(m, '.') < i - lo {
            assert(m[first_index_of(m, '.')] == cs@[lo + first_index_of(m, '.')]);
        }
        if i < hi {
            assert(m[i - lo] == '.');
        } else {
            assert(first_index_of(m, '.') < 0);
        }
    }
    if i == hi {
        return hi > lo && digits_between(cs, lo, hi);
    }
    proof {
        assert(first_index_of(m, '.') == i - lo);
        assert(m.take(i - lo) =~= cs@.subrange(lo as int, i as int));
        assert(m.skip(i - lo + 1) =~= cs@.subrange(i + 1, hi as int));
    }
    digits_between(cs, lo, i) && digits_between(cs, i + 1, hi) && (i > lo || hi > i + 1)
}

/// Whether `cs[lo..hi]` is an exponent (after the `e`).
fn exponent_between(cs: &Vec<char>, lo: usize, hi: usize) -> (b: bool)
    requires
        lo <= hi <= cs@.len(),
    ensures
        b == is_exponent_text(cs@.subrange(lo as int, hi as int)),
{
    let mut s = lo;
    if lo < hi && (cs[lo] == '+' || cs[lo] == '-') {
        s = lo + 1;
    }
    proof {
        let x = cs@.subrange(lo as int, hi as int);
        if lo < hi && (cs@[lo as int] == '+' || cs@[lo as int] == '-') {
            assert(x.drop_first() =~= cs@.subrange(s as int, hi as int));
        }
    }
    s < hi && digits_between(cs, s, hi)
}

/// Whether `cs` is a literal that `f64::from_str` accepts.
pub fn is_float_text_chars(cs: &Vec<char>) -> (b: bool)
    ensures
        b == is_float_text(cs@),
{
    let n = cs.len();
    let mut lo: usize = 0;
    if n > 0 && (cs[0] == '+' || cs[0] == '-') {
        lo = 1;
    }
    let ghost bseq = if cs@.len() > 0 && (cs@[0] == '+' || cs@[0] == '-') { cs@.drop_first() } else { cs@ };
    proof {
        assert(bseq =~= cs@.subrange(lo as int, n as int));
    }
    let inf: Vec<char> = vec!['i', 'n', 'f'];
    let infinity: Vec<char> = vec!['i', 'n', 'f', 'i', 'n', 'i', 't', 'y'];
    let nan: Vec<char> = vec!['n', 'a', 'n'];
    proof {
        assert(inf@ =~= seq!['i', 'n', 'f']);
        assert(infinity@ =~= seq!['i', 'n', 'f', 'i', 'n', 'i', 't', 'y']);
        assert(nan@ =~= seq!['n', 'a', 'n']);
    }
    if eq_ignore_case_between(cs, lo, n, &inf) || eq_ignore_case_between(cs, lo, n, &infinity)
        || eq_ignore_case_between(cs, lo, n, &nan) {
        return true;
    }
    proof {
        lemma_first_exp_index(bseq);
    }
    let mut e = lo;
    while e < n && !(cs[e] == 'e' || cs[e] == 'E')
        invariant
            lo <= e <= n,
            n == cs@.len(),
            bseq == cs@.subrange(lo as int, n as int),
            forall|k: int| lo <= k < e ==> !(cs@[k] == 'e' || cs@[k] == 'E'),
        decreases n - e,
    {
        e = e + 1;
    }
    proof {
        let f = first_exp_index(bseq);
        if f >= 0 && f < e - lo {
            assert(bseq[f] == cs@[lo + f]);
        }
        if e < n {
            assert(bseq[e - lo] == cs@[e as int]);
        }
    }
    if e == n {
        return mantissa_between(cs, lo, n);
    }
    proof {
        assert(first_exp_index(bseq) == e - lo);
        assert(bseq.take(e - lo) =~= cs@.subrange(lo as int, e as int));
        assert(bseq.skip(e - lo + 1) =~= cs@.subrange(e + 1, n as int));
    }
    mantissa_between(cs, lo, e) && exponent_between(cs, e + 1, n)
}

/// Position of the first line feed at or after `i`, or `s.len()`.
pub open spec fn next_newline(s: Seq<char>, i: int) -> int
    decreases s.len() - i,
{
    if i < 0 || i >= s.len() || s[i] == '\n' {
        i
    } else {
        next_newline(s, i + 1)
    }
}

/// `next_newline` finds the first line feed at or after `i`.
pub proof fn lemma_next_newline(s: Seq<char>, i: int)
    requires
        0 <= i <= s.len(),
    ensures
        i <= next_newline(s, i) <= s.len(),
        next_newline(s, i) < s.len() ==> s[next_newline(s, i)] == '\n',
        forall|k: int| i <= k < next_newline(s, i) ==> #[trigger] s[k] != '\n',
    decreases s.len() - i,
{
    if i < s.len() && s[i] != '\n' {
        lemma_next_newline(s, i + 1);
    }
}

/// A line without its terminating carriage return, if it has one.
pub open spec fn strip_cr(l: Seq<char>) -> Seq<char> {
    if l.len() > 0 && l.last() == '\r' {
        l.drop_last()
    } else {
        l
    }
}

/// The lines of `s` from position `i` on, as `str::lines` yields them: split at each
/// `\n`, one `\r` before the `\n` removed, and no empty line after a final `\n`.
pub open spec fn lines_from(s: Seq<char>, i: int) -> Seq<Seq<char>>
    decreases s.len() - i,
{
    if i < 0 || i >= s.len() {
        Seq::empty()
    } else {
        let j = next_newline(s, i);
        proof {
            lemma_next_newline(s, i);
        }
        if j >= s.len() {
            seq![s.subrange(i, j)]
        } else {
            seq![strip_cr(s.subrange(i, j))] + lines_from(s, j + 1)
        }
    }
}

/// The lines of `s`.
pub open spec fn lines_of(s: Seq<char>) -> Seq<Seq<char>> {
    lines_from(s, 0)
}

/// Splits `cs` into its lines, as `str::lines` does.
pub fn split_lines(cs: &Vec<char>) -> (r: Vec<Vec<char>>)
    ensures
        char_vecs_view(r@) == lines_of(cs@),
        forall|k: int| 0 <= k < r@.len() ==> (#[trigger] r@[k])@.len() <= cs@.len(),
{
    let n = cs.len();
    let mut out: Vec<Vec<char>> = Vec::new();
    let mut i: usize = 0;
    let ghost s = cs@;
    proof {
        assert(char_vecs_view(out@) + lines_from(s, 0) =~= lines_from(s, 0));
    }
    while i < n
        invariant
            n == cs@.len(),
            s == cs@,
            i <= n,
            char_vecs_view(out@) + lines_from(s, i as int) == lines_from(s, 0),
            forall|k: int| 0 <= k < out@.len() ==> (#[trigger] out@[k])@.len() <= n,
        decreases n - i,
    {
        let mut j = i;
        while j < n && cs[j] != '\n'
            invariant
                n == cs@.len(),
                i <= j <= n,
                forall|k: int| i <= k < j ==> #[trigger] cs@[k] != '\n',
            decreases n - j,
        {
            j = j + 1;
        }
        proof {
            lemma_next_newline(s, i as int);
            if next_newline(s, i as int) < j {
                assert(s[next_newline(s, i as int)] == '\n');
            }
            assert(next_newline(s, i as int) == j);
        }
        let ghost before = char_vecs_view(out@);
        if j >= n {
            let piece = chars_between(cs, i, j);
            out.push(piece);
            proof {
                assert(char_vecs_view(out@) =~= before.push(piece@));
                assert(lines_from(s, i as int) == seq![s.subrange(i as int, j as int)]);
                assert(char_vecs_view(out@) + lines_from(s, n as int) =~= before + lines_from(s, i as int));
            }
            i = n;
        } else {
            let end = if j > i && cs[j - 1] == '\r' { j - 1 } else { j };
            let piece = chars_between(cs, i, end);
            proof {
                if j > i && cs@[j - 1] == '\r' {
                    assert(s.subrange(i as int, j as int).drop_last() =~= s.subrange(i as int, end as int));
                }
                assert(piece@ == strip_cr(s.subrange(i as int, j as int)));
            }
            out.push(piece);
            proof {
                assert(char_vecs_view(out@) =~= before.push(piece@));
                assert(lines_from(s, i as int) == seq![piece@] + lines_from(s, j + 1));
                assert(before + lines_from(s, i as int) =~= char_vecs_view(out@) + lines_from(s, j + 1));
            }
            i = j + 1;
        }
    }
    proof {
        assert(char_vecs_view(out@) + lines_from(s, i as int) =~= char_vecs_view(out@));
    }
    out
}


/// Whether two character vectors hold the same characters.
pub fn chars_eq(a: &Vec<char>, b: &Vec<char>) -> (r: bool)
    ensures
        r == (a@ == b@),
{
    if a.len() != b.len() {
        return false;
    }
    let n = a.len();
    let mut i: usize = 0;
    while i < n
        invariant
            n == a@.len(),
            n == b@.len(),
            i <= n,
            forall|k: int| 0 <= k < i ==> a@[k] == b@[k],
        decreases n - i,
    {
        if a[i] != b[i] {
            return false;
        }
        i = i + 1;
    }
    proof {
        assert(a@ =~= b@);
    }
    true
}


/// A string has no more words than characters.
pub proof fn lemma_words_len(s: Seq<char>)
    ensures
        words(s).len() <= s.len(),
{
    lemma_words_from_len(s, 0);
}

proof fn lemma_words_from_len(s: Seq<char>, i: int)
    requires
        0 <= i <= s.len(),
    ensures
        words_from(s, i).len() <= s.len() - i,
    decreases s.len() - i,
{
    if i < s.len() {
        if is_ws(s[i]) {
            lemma_words_from_len(s, i + 1);
        } else {
            lemma_word_end(s, i + 1);
            lemma_words_from_len(s, word_end(s, i + 1));
        }
    }
}

proof fn lemma_leading_ws_props(s: Seq<char>)
    ensures
        leading_ws(s) <= s.len(),
        forall|j: int| 0 <= j < leading_ws(s) ==> is_ws(#[trigger] s[j]),
        leading_ws(s) < s.len() ==> !is_ws(s[leading_ws(s) as int]),
    decreases s.len(),
{
    if s.len() > 0 && is_ws(s[0]) {
        let t = s.drop_first();
        lemma_leading_ws_props(t);
        assert forall|j: int| 0 <= j < leading_ws(s) implies is_ws(#[trigger] s[j]) by {
            if j > 0 {
                assert(s[j] == t[j - 1]);
            }
        }
        if leading_ws(s) < s.len() {
            assert(s[leading_ws(s) as int] == t[leading_ws(t) as int]);
        }
    }
}

proof fn lemma_trailing_ws_props(s: Seq<char>)
    ensures
        trailing_ws(s) <= s.len(),
        forall|j: int| s.len() - trailing_ws(s) <= j < s.len() ==> is_ws(#[trigger] s[j]),
        trailing_ws(s) < s.len() ==> !is_ws(s[s.len() - trailing_ws(s) - 1]),
    decreases s.len(),
{
    if s.len() > 0 && is_ws(s.last()) {
        let t = s.drop_last();
        lemma_trailing_ws_props(t);
        assert forall|j: int| s.len() - trailing_ws(s) <= j < s.len() implies is_ws(#[trigger] s[j]) by {
            if j < s.len() - 1 {
                assert(s[j] == t[j]);
            }
        }
        if trailing_ws(s) < s.len() {
            assert(s[s.len() - trailing_ws(s) - 1] == t[t.len() - trailing_ws(t) - 1]);
        }
    }
}

/// Trimming leaves some text exactly when the text holds a character that is not whitespace.
pub proof fn lemma_trim_nonempty(s: Seq<char>)
    ensures
        trim_seq(s).len() > 0 <==> exists|j: int| 0 <= j < s.len() && !is_ws(#[trigger] s[j]),
{
    lemma_leading_ws_props(s);
    let lead = leading_ws(s) as int;
    let front = s.skip(lead);
    lemma_trailing_ws_props(front);
    if exists|j: int| 0 <= j < s.len() && !is_ws(#[trigger] s[j]) {
        let j = choose|j: int| 0 <= j < s.len() && !is_ws(#[trigger] s[j]);
        assert(lead <= j);
        assert(front[0] == s[lead]);
        assert(trailing_ws(front) < front.len());
    } else {
        if lead < s.len() {
            assert(!is_ws(s[lead]));
        }
        assert(front.len() == 0);
    }
}

} // verus!
