//! Seat arithmetic of a hand: the blinds and who acts next.
use vstd::prelude::*;

verus! {

/// The small blind, big blind and first-to-act seats of an `n`-handed hand with the given
/// button: heads-up the button posts the small blind.
pub open spec fn blind_seats(n: int, button: int) -> (int, int, int) {
    let sb = if n == 2 { button } else { (button + 1) % n };
    let bb = if n == 2 { (button + 1) % n } else { (button + 2) % n };
    (sb, bb, (bb + 1) % n)
}

/// The small blind, big blind and first-to-act seats.
pub fn blind_positions(n: usize, button: usize) -> (r: (usize, usize, usize))
    requires
        n >= 2,
        button + 2 <= usize::MAX,
    ensures
        (r.0 as int, r.1 as int, r.2 as int) == blind_seats(n as int, button as int),
        r.1 < n,
        r.2 < n,
        n > 2 ==> r.0 < n,
{
    let sb = if n == 2 { button } else { (button + 1) % n };
    let bb = if n == 2 { (button + 1) % n } else { (button + 2) % n };
    (sb, bb, (bb + 1) % n)
}

/// The smallest `j` in `k..n` such that the player `j` seats after `from` can act, or `n`.
pub open spec fn first_able(can_act: Seq<bool>, from: int, k: int) -> int
    decreases can_act.len() - k,
{
    if k >= can_act.len() {
        can_act.len() as int
    } else if can_act[(from + k) % (can_act.len() as int)] {
        k
    } else {
        first_able(can_act, from, k + 1)
    }
}

/// The seat `j` places after `from` at a table of `n`.
pub open spec fn seat_after(n: int, from: int, j: int) -> int {
    (from + j) % n
}

/// The first seat after `from`, going round the table, whose player can act; `from`
/// itself when no other player can.
pub open spec fn next_to_act_spec(can_act: Seq<bool>, from: int) -> int {
    (from + first_able(can_act, from, 1)) % (can_act.len() as int)
}

proof fn lemma_first_able(can_act: Seq<bool>, from: int, k: int)
    requires
        1 <= k <= can_act.len(),
    ensures
        k <= first_able(can_act, from, k) <= can_act.len(),
    decreases can_act.len() - k,
{
    if k < can_act.len() && !can_act[(from + k) % (can_act.len() as int)] {
        lemma_first_able(can_act, from, k + 1);
    }
}

/// The first seat after `from` whose player can act, going round the table.
pub fn next_to_act(can_act: &[bool], from: usize) -> (r: usize)
    requires
        from < can_act@.len(),
    ensures
        r == next_to_act_spec(can_act@, from as int),
        r < can_act@.len(),
{
    let n = can_act.len();
    let ghost s = can_act@;
    let mut k: usize = 1;
    while k < n
        invariant
            n == s.len(),
            s == can_act@,
            from < n,
            1 <= k <= n,
            first_able(s, from as int, 1) == first_able(s, from as int, k as int),
        decreases n - k,
    {
        let idx = if k < n - from { from + k } else { k - (n - from) };
        proof {
            assert(idx == (from + k) % (n as int)) by (nonlinear_arith)
                requires
                    from < n,
                    1 <= k < n,
                    idx == if k < n - from { from + k } else { k - (n - from) },
            ;
        }
        if can_act[idx] {
            return idx;
        }
        k = k + 1;
    }
    proof {
        assert((from + n) % (n as int) == from) by (nonlinear_arith)
            requires
                from < n,
        ;
    }
    from
}


/// The seat chosen to act next can act, unless it is `from` itself, which is chosen only
/// when no other seat can act; no seat passed over on the way can act.
pub proof fn lemma_next_to_act(can_act: Seq<bool>, from: int)
    requires
        0 <= from < can_act.len(),
    ensures
        next_to_act_spec(can_act, from) == from || can_act[next_to_act_spec(can_act, from)],
        (exists|j: int| 0 <= j < can_act.len() && j != from && #[trigger] can_act[j]) ==> (
        next_to_act_spec(can_act, from) != from && can_act[next_to_act_spec(can_act, from)]),
{
    let n = can_act.len() as int;
    lemma_first_able(can_act, from, 1);
    lemma_first_able_skips(can_act, from, 1);
    let f = first_able(can_act, from, 1);
    if f == n {
        assert((from + n) % n == from) by (nonlinear_arith)
            requires
                0 <= from < n,
        ;
        if exists|j: int| 0 <= j < n && j != from && #[trigger] can_act[j] {
            let j = choose|j: int| 0 <= j < n && j != from && #[trigger] can_act[j];
            let k = if j > from { j - from } else { j + n - from };
            assert((from + k) % n == j) by (nonlinear_arith)
                requires
                    0 <= from < n,
                    0 <= j < n,
                    k == if j > from { j - from } else { j + n - from },
            ;
            assert(!can_act[seat_after(n, from, k)]);
        }
    } else {
        assert((from + f) % n != from) by (nonlinear_arith)
            requires
                0 <= from < n,
                1 <= f < n,
        ;
    }
}

proof fn lemma_first_able_skips(can_act: Seq<bool>, from: int, k: int)
    requires
        1 <= k <= can_act.len(),
    ensures
        forall|j: int| k <= j < first_able(can_act, from, k) ==> !can_act[#[trigger] seat_after(can_act.len() as int, from, j)],
        first_able(can_act, from, k) < can_act.len() ==> can_act[(from + first_able(can_act, from, k)) % (can_act.len() as int)],
    decreases can_act.len() - k,
{
    if k < can_act.len() && !can_act[(from + k) % (can_act.len() as int)] {
        lemma_first_able_skips(can_act, from, k + 1);
    }
}

} // verus!
