//! Showdown decisions of a Monte Carlo runout: dealing the rest of the board and
//! comparing hand scores (a lower score is a stronger hand).
use vstd::prelude::*;
use crate::card::Card;
use crate::deck::DeckBitmask;
use crate::sim::{xorshift_step, FastPrng};

verus! {

/// The lowest of the scores; 9999, above every hand score, when there is no lower one.
pub open spec fn lowest_score(scores: Seq<u16>) -> int
    decreases scores.len(),
{
    if scores.len() == 0 {
        9999
    } else {
        let m = lowest_score(scores.drop_last());
        if (scores.last() as int) < m {
            scores.last() as int
        } else {
            m
        }
    }
}

/// How many of the scores equal `m`.
pub open spec fn count_score(scores: Seq<u16>, m: int) -> nat
    decreases scores.len(),
{
    if scores.len() == 0 {
        0
    } else {
        count_score(scores.drop_last(), m) + if scores.last() as int == m { 1nat } else { 0nat }
    }
}

/// No score is below the lowest score.
pub proof fn lemma_lowest_score(scores: Seq<u16>)
    ensures
        forall|k: int| 0 <= k < scores.len() ==> lowest_score(scores) <= #[trigger] scores[k] as int,
        lowest_score(scores) <= 9999,
        count_score(scores, lowest_score(scores)) <= scores.len(),
    decreases scores.len(),
{
    if scores.len() > 0 {
        let p = scores.drop_last();
        lemma_lowest_score(p);
        assert forall|k: int| 0 <= k < scores.len() implies lowest_score(scores) <= #[trigger] scores[k] as int by {
            if k < scores.len() - 1 {
                assert(scores[k] == p[k]);
            }
        }
        lemma_count_score_bound(p, lowest_score(scores));
    }
}

proof fn lemma_count_score_bound(scores: Seq<u16>, m: int)
    ensures
        count_score(scores, m) <= scores.len(),
    decreases scores.len(),
{
    if scores.len() > 0 {
        lemma_count_score_bound(scores.drop_last(), m);
    }
}

proof fn lemma_count_score_zero(scores: Seq<u16>, m: int)
    requires
        forall|k: int| 0 <= k < scores.len() ==> m < #[trigger] scores[k] as int,
    ensures
        count_score(scores, m) == 0,
    decreases scores.len(),
{
    if scores.len() > 0 {
        let p = scores.drop_last();
        assert forall|k: int| 0 <= k < p.len() implies m < #[trigger] p[k] as int by {
            assert(p[k] == scores[k]);
        }
        lemma_count_score_zero(p, m);
    }
}

/// How the hero fares at showdown against the opponents' hands.
#[derive(Debug, Clone, Copy, PartialEq, Eq, Structural)]
pub enum ShowdownOutcome {
    /// The hero's hand is strictly the best.
    Win,
    /// The hero ties for the best hand with this many opponents.
    Split(usize),
    /// An opponent's hand is strictly better.
    Loss,
}

/// The outcome for a hero score against the opponents' scores.
pub open spec fn outcome_of(hero: u16, villains: Seq<u16>) -> ShowdownOutcome {
    let m = lowest_score(villains);
    if (hero as int) < m {
        ShowdownOutcome::Win
    } else if hero as int == m {
        ShowdownOutcome::Split(count_score(villains, m) as usize)
    } else {
        ShowdownOutcome::Loss
    }
}

/// Compares the hero's score with the opponents' scores: a win below all of them, a split
/// with the opponents that share the lowest score, a loss otherwise.
pub fn showdown_outcome(hero_score: u16, villain_scores: &[u16]) -> (r: ShowdownOutcome)
    ensures
        r == outcome_of(hero_score, villain_scores@),
{
    let n = villain_scores.len();
    let mut best: u16 = 9999;
    let mut count: usize = 0;
    let mut i: usize = 0;
    let ghost v = villain_scores@;
    proof {
        assert(v.take(0) =~= Seq::<u16>::empty());
    }
    while i < n
        invariant
            n == v.len(),
            v == villain_scores@,
            i <= n,
            best as int == lowest_score(v.take(i as int)),
            count == count_score(v.take(i as int), best as int),
            count <= i,
        decreases n - i,
    {
        let s = villain_scores[i];
        proof {
            let t = v.take(i + 1);
            assert(t.drop_last() =~= v.take(i as int));
            assert(t.last() == s);
            lemma_lowest_score(v.take(i as int));
            if s < best {
                assert forall|k: int| 0 <= k < v.take(i as int).len() implies (s as int) < #[trigger] v.take(i as int)[k] as int by {}
                lemma_count_score_zero(v.take(i as int), s as int);
            }
        }
        if s < best {
            best = s;
            count = 1;
        } else if s == best {
            count = count + 1;
        }
        i = i + 1;
    }
    proof {
        assert(v.take(n as int) =~= v);
    }
    if hero_score < best {
        ShowdownOutcome::Win
    } else if hero_score == best {
        ShowdownOutcome::Split(count)
    } else {
        ShowdownOutcome::Loss
    }
}

/// The players among `scored` whose score is `m`, in order.
pub open spec fn players_scoring(scored: Seq<(usize, u16)>, m: int) -> Seq<usize>
    decreases scored.len(),
{
    if scored.len() == 0 {
        Seq::empty()
    } else {
        let prev = players_scoring(scored.drop_last(), m);
        if scored.last().1 as int == m {
            prev.push(scored.last().0)
        } else {
            prev
        }
    }
}

/// The scores of `(player, score)` pairs.
pub open spec fn scores_of(scored: Seq<(usize, u16)>) -> Seq<u16> {
    scored.map_values(|e: (usize, u16)| e.1)
}

/// The players that share the lowest score, in the order given: the winners of a pot.
pub fn lowest_score_players(scored: &[(usize, u16)]) -> (r: Vec<usize>)
    ensures
        r@ == players_scoring(scored@, lowest_score(scores_of(scored@))),
{
    let n = scored.len();
    let ghost sv = scores_of(scored@);
    let mut best: u16 = 9999;
    let mut i: usize = 0;
    proof {
        assert(sv.take(0) =~= Seq::<u16>::empty());
    }
    while i < n
        invariant
            n == scored@.len(),
            sv == scores_of(scored@),
            i <= n,
            best as int == lowest_score(sv.take(i as int)),
        decreases n - i,
    {
        proof {
            assert(sv.take(i + 1).drop_last() =~= sv.take(i as int));
            assert(sv.take(i + 1).last() == scored@[i as int].1);
        }
        if scored[i].1 < best {
            best = scored[i].1;
        }
        i = i + 1;
    }
    proof {
        assert(sv.take(n as int) =~= sv);
    }
    let mut out: Vec<usize> = Vec::new();
    let mut j: usize = 0;
    proof {
        assert(scored@.take(0) =~= Seq::<(usize, u16)>::empty());
    }
    while j < n
        invariant
            n == scored@.len(),
            j <= n,
            out@ == players_scoring(scored@.take(j as int), best as int),
        decreases n - j,
    {
        proof {
            assert(scored@.take(j + 1).drop_last() =~= scored@.take(j as int));
            assert(scored@.take(j + 1).last() == scored@[j as int]);
        }
        if scored[j].1 == best {
            out.push(scored[j].0);
        }
        j = j + 1;
    }
    proof {
        assert(scored@.take(n as int) =~= scored@);
    }
    out
}

/// The cards drawn to complete a board: each draw advances the generator one step, takes
/// the card at the drawn position (modulo the pool size) out of the pool by moving the
/// pool's last card into its place, and keeps it unless it is dead; drawing stops when
/// `needed` cards are kept or the pool is empty. Also gives the generator's final state.
pub open spec fn runout_picks(pool: Seq<Card>, state: u64, needed: nat, dead: Set<int>) -> (Seq<Card>, u64)
    decreases pool.len(),
{
    if needed == 0 || pool.len() == 0 {
        (Seq::empty(), state)
    } else {
        let x = xorshift_step(state);
        let i = ((x as usize) as int) % (pool.len() as int);
        let c = pool[i];
        let rest = pool.update(i, pool.last()).drop_last();
        if dead.contains(c.index_of()) {
            runout_picks(rest, x, needed, dead)
        } else {
            let more = runout_picks(rest, x, (needed - 1) as nat, dead);
            (seq![c] + more.0, more.1)
        }
    }
}

/// Draws the cards that complete a board from `pool`, skipping dead cards.
pub fn deal_runout(prng: &mut FastPrng, pool: &[Card], needed: usize, dead: DeckBitmask) -> (r: Vec<Card>)
    requires
        forall|i: int| 0 <= i < pool@.len() ==> #[trigger] pool@[i].valid(),
    ensures
        (r@, final(prng).0) == runout_picks(pool@, old(prng).0, needed as nat, dead@),
{
    let mut work: Vec<Card> = Vec::new();
    let mut k: usize = 0;
    while k < pool.len()
        invariant
            k <= pool@.len(),
            work@ == pool@.take(k as int),
        decreases pool@.len() - k,
    {
        work.push(pool[k]);
        proof {
            assert(pool@.take(k + 1) =~= pool@.take(k as int).push(pool@[k as int]));
        }
        k = k + 1;
    }
    proof {
        assert(pool@.take(pool@.len() as int) =~= pool@);
    }
    let ghost goal = runout_picks(pool@, old(prng).0, needed as nat, dead@);
    let mut len = work.len();
    let mut out: Vec<Card> = Vec::new();
    proof {
        assert(work@.take(len as int) =~= pool@);
        assert(out@ + goal.0 =~= goal.0);
    }
    while out.len() < needed && len > 0
        invariant
            len <= work@.len(),
            out@.len() <= needed,
            forall|i: int| 0 <= i < work@.len() ==> #[trigger] work@[i].valid(),
            ({
                let g = runout_picks(work@.take(len as int), prng.0, (needed - out@.len()) as nat, dead@);
                out@ + g.0 == goal.0 && g.1 == goal.1
            }),
        decreases len,
    {
        let ghost before_pool = work@.take(len as int);
        let ghost before_out = out@;
        let ghost st = prng.0;
        let x = prng.next_u64();
        let i = (x as usize) % len;
        let c = work[i];
        len = len - 1;
        let last = work[len];
        work.set(i, last);
        proof {
            assert(before_pool.update(i as int, before_pool.last()).drop_last() =~= work@.take(len as int));
            assert(c == before_pool[i as int]);
            assert(c.valid() && c.fields_readable());
        }
        if !dead.has_card(c) {
            out.push(c);
            proof {
                let more = runout_picks(work@.take(len as int), x, (needed - out@.len()) as nat, dead@);
                assert(out@ + more.0 =~= before_out + (seq![c] + more.0));
            }
        }
    }
    proof {
        let g = runout_picks(work@.take(len as int), prng.0, (needed - out@.len()) as nat, dead@);
        assert(g.0 =~= Seq::<Card>::empty());
        assert(out@ + g.0 =~= out@);
    }
    out
}


/// A hand score (at most 7462) wins outright exactly when it is below every opponent's
/// score, and loses exactly when some opponent's score is below it.
pub proof fn lemma_outcome_by_comparison(hero: u16, villains: Seq<u16>)
    requires
        hero <= 7462,
    ensures
        (outcome_of(hero, villains) == ShowdownOutcome::Win) <==> (forall|k: int|
            0 <= k < villains.len() ==> hero < #[trigger] villains[k]),
        (outcome_of(hero, villains) == ShowdownOutcome::Loss) <==> (exists|k: int|
            0 <= k < villains.len() && #[trigger] villains[k] < hero),
    decreases villains.len(),
{
    lemma_lowest_score(villains);
    lemma_lowest_is_a_score(villains);
    if lowest_score(villains) <= hero as int && lowest_score(villains) < 9999 {
        let k = choose|k: int| 0 <= k < villains.len() && villains[k] as int == lowest_score(villains);
        assert(villains[k] as int == lowest_score(villains));
    }
}

proof fn lemma_lowest_is_a_score(scores: Seq<u16>)
    ensures
        lowest_score(scores) == 9999 || exists|k: int| 0 <= k < scores.len() && scores[k] as int == lowest_score(scores),
    decreases scores.len(),
{
    if scores.len() > 0 {
        let p = scores.drop_last();
        lemma_lowest_is_a_score(p);
        if lowest_score(scores) != 9999 && lowest_score(scores) != scores.last() as int {
            let k = choose|k: int| 0 <= k < p.len() && p[k] as int == lowest_score(p);
            assert(scores[k] == p[k]);
        }
        if lowest_score(scores) == scores.last() as int {
            assert(scores[scores.len() - 1] == scores.last());
        }
    }
}

/// Every card a runout draws is live (not dead), comes from the pool, and no more cards
/// are drawn than needed.
pub proof fn lemma_runout_cards_live(pool: Seq<Card>, state: u64, needed: nat, dead: Set<int>)
    ensures
        runout_picks(pool, state, needed, dead).0.len() <= needed,
        forall|k: int| 0 <= k < runout_picks(pool, state, needed, dead).0.len() ==> {
            let c = #[trigger] runout_picks(pool, state, needed, dead).0[k];
            !dead.contains(c.index_of()) && pool.contains(c)
        },
    decreases pool.len(),
{
    if needed > 0 && pool.len() > 0 {
        let x = xorshift_step(state);
        let i = ((x as usize) as int) % (pool.len() as int);
        let c = pool[i];
        let rest = pool.update(i, pool.last()).drop_last();
        assert forall|j: int| 0 <= j < rest.len() implies pool.contains(#[trigger] rest[j]) by {
            if j == i {
                assert(rest[j] == pool[pool.len() - 1]);
            } else {
                assert(rest[j] == pool[j]);
            }
        }
        if dead.contains(c.index_of()) {
            lemma_runout_cards_live(rest, x, needed, dead);
            let picks = runout_picks(rest, x, needed, dead).0;
            assert forall|k: int| 0 <= k < picks.len() implies pool.contains(#[trigger] picks[k]) by {
                assert(rest.contains(picks[k]));
            }
        } else {
            lemma_runout_cards_live(rest, x, (needed - 1) as nat, dead);
            let more = runout_picks(rest, x, (needed - 1) as nat, dead).0;
            let all = seq![c] + more;
            assert forall|k: int| 0 <= k < all.len() implies !dead.contains((#[trigger] all[k]).index_of()) && pool.contains(all[k]) by {
                if k > 0 {
                    assert(all[k] == more[k - 1]);
                    assert(rest.contains(more[k - 1]));
                }
            }
        }
    }
}

/// The number of positions of `pool` that hold a live card (one not in `dead`).
pub open spec fn live_count(pool: Seq<Card>, dead: Set<int>) -> nat
    decreases pool.len(),
{
    if pool.len() == 0 {
        0
    } else {
        live_count(pool.drop_last(), dead) + if dead.contains(pool.last().index_of()) { 0nat } else { 1nat }
    }
}

proof fn lemma_live_count_concat(a: Seq<Card>, b: Seq<Card>, dead: Set<int>)
    ensures
        live_count(a + b, dead) == live_count(a, dead) + live_count(b, dead),
    decreases b.len(),
{
    if b.len() == 0 {
        assert(a + b =~= a);
    } else {
        lemma_live_count_concat(a, b.drop_last(), dead);
        assert((a + b).drop_last() =~= a + b.drop_last());
        assert((a + b).last() == b.last());
    }
}

proof fn lemma_live_count_one(c: Card, dead: Set<int>)
    ensures
        live_count(seq![c], dead) == if dead.contains(c.index_of()) { 0nat } else { 1nat },
{
    assert(seq![c].drop_last() =~= Seq::<Card>::empty());
    assert(seq![c].last() == c);
    assert(live_count(Seq::<Card>::empty(), dead) == 0);
    assert(live_count(seq![c], dead) == live_count(seq![c].drop_last(), dead) + if dead.contains(
        c.index_of(),
    ) { 0nat } else { 1nat });
}

/// Taking the card at position `i` out of the pool by moving the last card into its place
/// leaves one live card fewer exactly when the card taken out is live.
proof fn lemma_live_count_take_out(pool: Seq<Card>, i: int, dead: Set<int>)
    requires
        0 <= i < pool.len(),
    ensures
        live_count(pool.update(i, pool.last()).drop_last(), dead) + (if dead.contains(pool[i].index_of()) {
            0nat
        } else {
            1nat
        }) == live_count(pool, dead),
{
    let n = pool.len() as int;
    let rest = pool.update(i, pool.last()).drop_last();
    if i == n - 1 {
        assert(rest =~= pool.drop_last());
    } else {
        let a = pool.take(i);
        let b = pool.subrange(i + 1, n - 1);
        let l = pool.last();
        let x = pool[i];
        assert(pool =~= a + seq![x] + b + seq![l]);
        assert(rest =~= a + seq![l] + b);
        lemma_live_count_concat(a + seq![x] + b, seq![l], dead);
        lemma_live_count_concat(a + seq![x], b, dead);
        lemma_live_count_concat(a, seq![x], dead);
        lemma_live_count_concat(a + seq![l], b, dead);
        lemma_live_count_concat(a, seq![l], dead);
        lemma_live_count_one(x, dead);
        lemma_live_count_one(l, dead);
    }
}

/// A runout deals as many cards as are asked for, unless the pool runs out of live cards
/// first: it deals exactly `min(needed, live cards in the pool)` cards, whatever the
/// generator draws.
pub proof fn lemma_runout_length(pool: Seq<Card>, state: u64, needed: nat, dead: Set<int>)
    ensures
        runout_picks(pool, state, needed, dead).0.len() == if needed <= live_count(pool, dead) {
            needed
        } else {
            live_count(pool, dead)
        },
    decreases pool.len(),
{
    if pool.len() == 0 {
    } else if needed == 0 {
    } else {
        let x = xorshift_step(state);
        let i = ((x as usize) as int) % (pool.len() as int);
        let c = pool[i];
        let rest = pool.update(i, pool.last()).drop_last();
        lemma_live_count_take_out(pool, i, dead);
        if dead.contains(c.index_of()) {
            lemma_runout_length(rest, x, needed, dead);
        } else {
            lemma_runout_length(rest, x, (needed - 1) as nat, dead);
        }
    }
}

/// The test that a score equals `m`.
pub open spec fn score_is(m: u16) -> spec_fn(u16) -> bool {
    |v: u16| v == m
}

proof fn lemma_count_score_filter(scores: Seq<u16>, m: u16)
    ensures
        count_score(scores, m as int) == scores.filter(score_is(m)).len(),
    decreases scores.len(),
{
    reveal(Seq::filter);
    if scores.len() > 0 {
        lemma_count_score_filter(scores.drop_last(), m);
    }
}

/// A hand score (at most 7462) splits the pot exactly when no opponent's score is below it
/// and some opponent's score equals it, and then it splits with exactly the opponents
/// whose score equals it.
pub proof fn lemma_split_by_comparison(hero: u16, villains: Seq<u16>)
    requires
        hero <= 7462,
        villains.len() <= usize::MAX,
    ensures
        (outcome_of(hero, villains) is Split) <==> ((forall|k: int| 0 <= k < villains.len() ==> hero
            <= #[trigger] villains[k]) && (exists|k: int| 0 <= k < villains.len() && #[trigger] villains[k]
            == hero)),
        outcome_of(hero, villains) is Split ==> outcome_of(hero, villains)->Split_0 as int == villains.filter(
            score_is(hero),
        ).len(),
{
    lemma_outcome_by_comparison(hero, villains);
    lemma_lowest_score(villains);
    lemma_lowest_is_a_score(villains);
    lemma_count_score_filter(villains, hero);
    if outcome_of(hero, villains) is Split {
        let k = choose|k: int| 0 <= k < villains.len() && villains[k] as int == lowest_score(villains);
        assert(villains[k] == hero);
    }
    if (forall|k: int| 0 <= k < villains.len() ==> hero <= #[trigger] villains[k]) && (exists|k: int|
        0 <= k < villains.len() && #[trigger] villains[k] == hero) {
        let k = choose|k: int| 0 <= k < villains.len() && #[trigger] villains[k] == hero;
        assert(lowest_score(villains) <= villains[k]);
    }
    if outcome_of(hero, villains) is Split {
        lemma_count_score_bound(villains, hero as int);
        assert(count_score(villains, hero as int) <= villains.len());
    }
}

/// The test that a scored player's score is no higher than any score in `scored`.
pub open spec fn scores_no_higher(scored: Seq<(usize, u16)>) -> spec_fn((usize, u16)) -> bool {
    |e: (usize, u16)| forall|k: int| 0 <= k < scored.len() ==> e.1 <= #[trigger] scored[k].1
}

/// The player of a scored entry.
pub open spec fn player_of() -> spec_fn((usize, u16)) -> usize {
    |e: (usize, u16)| e.0
}

proof fn lemma_players_scoring_filter(part: Seq<(usize, u16)>, all: Seq<(usize, u16)>, m: int)
    requires
        forall|i: int| 0 <= i < part.len() ==> ((#[trigger] part[i]).1 as int == m <==> scores_no_higher(all)(
            part[i],
        )),
    ensures
        players_scoring(part, m) == part.filter(scores_no_higher(all)).map_values(player_of()),
    decreases part.len(),
{
    reveal(Seq::filter);
    if part.len() > 0 {
        let p = part.drop_last();
        assert forall|i: int| 0 <= i < p.len() implies ((#[trigger] p[i]).1 as int == m <==> scores_no_higher(
            all,
        )(p[i])) by {
            assert(p[i] == part[i]);
        }
        lemma_players_scoring_filter(p, all, m);
        assert(part[part.len() - 1] == part.last());
        let f = p.filter(scores_no_higher(all));
        if scores_no_higher(all)(part.last()) {
            assert(f.push(part.last()).map_values(player_of()) =~= f.map_values(player_of()).push(
                part.last().0,
            ));
        }
    }
}

/// The winners of a pot are exactly the players whose hand score (at most 7462) is no
/// higher than any score, in the order they are given.
pub proof fn lemma_lowest_score_players(scored: Seq<(usize, u16)>)
    requires
        forall|k: int| 0 <= k < scored.len() ==> (#[trigger] scored[k]).1 <= 7462,
    ensures
        players_scoring(scored, lowest_score(scores_of(scored))) == scored.filter(scores_no_higher(scored)).map_values(
            player_of(),
        ),
{
    let sv = scores_of(scored);
    let m = lowest_score(sv);
    lemma_lowest_score(sv);
    lemma_lowest_is_a_score(sv);
    assert forall|i: int| 0 <= i < scored.len() implies ((#[trigger] scored[i]).1 as int == m
        <==> scores_no_higher(scored)(scored[i])) by {
        assert(sv[i] == scored[i].1);
        if scored[i].1 as int == m {
            assert forall|k: int| 0 <= k < scored.len() implies scored[i].1 <= #[trigger] scored[k].1 by {
                assert(sv[k] == scored[k].1);
            }
        }
        if scores_no_higher(scored)(scored[i]) {
            assert(sv[i] == scored[i].1);
            assert(m <= 7462);
            let k = choose|k: int| 0 <= k < sv.len() && sv[k] as int == m;
            assert(sv[k] == scored[k].1);
            assert(scored[i].1 <= scored[k].1);
        }
    }
    lemma_players_scoring_filter(scored, scored, m);
}

} // verus!



