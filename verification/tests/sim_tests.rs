use poker_analyse::{
    blind_positions, deal_runout, lowest_score_players, next_to_act, showdown_outcome, Card,
    DeckBitmask, FastPrng, LeakSeverity, ShowdownOutcome, Street,
};

fn xorshift(mut x: u64) -> u64 {
    x ^= x << 13;
    x ^= x >> 7;
    x ^= x << 17;
    x
}

#[test]
fn test_fast_prng_sequence_and_zero_seed() {
    let mut p = FastPrng::new(42);
    assert_eq!(p.next_u64(), xorshift(42));
    assert_eq!(p.next_u64(), xorshift(xorshift(42)));
    let z = FastPrng::new(0);
    assert_eq!(z.0, 0xDEADBEEFCAFE1234);
    let mut q = FastPrng::new(1);
    for _ in 0..1000 {
        assert_ne!(q.next_u64(), 0);
    }
}

#[test]
fn test_showdown_outcomes() {
    assert_eq!(showdown_outcome(100, &[200, 300]), ShowdownOutcome::Win);
    assert_eq!(showdown_outcome(200, &[200, 300, 200]), ShowdownOutcome::Split(2));
    assert_eq!(showdown_outcome(250, &[200, 300]), ShowdownOutcome::Loss);
    assert_eq!(showdown_outcome(7462, &[]), ShowdownOutcome::Win);
}

#[test]
fn test_pot_winners_share_lowest_score() {
    assert_eq!(lowest_score_players(&[(0, 500), (2, 120), (3, 120), (5, 900)]), vec![2, 3]);
    assert_eq!(lowest_score_players(&[(4, 1)]), vec![4]);
    assert!(lowest_score_players(&[]).is_empty());
}

#[test]
fn test_deal_runout_skips_dead_and_follows_generator() {
    let pool: Vec<Card> = ["As", "Kd", "Qh", "Jc", "Ts", "9d"]
        .iter()
        .map(|s| Card::from_str_exact(s).unwrap())
        .collect();
    let mut dead = DeckBitmask::empty();
    dead.add_card(pool[0]);
    dead.add_card(pool[1]);

    let mut prng = FastPrng::new(7);
    let picks = deal_runout(&mut prng, &pool, 3, dead);
    assert_eq!(picks.len(), 3);
    for c in &picks {
        assert!(!dead.has_card(*c));
        assert!(pool.contains(c));
    }

    // The same draws by hand: swap-remove at (state % len), skipping dead cards.
    let mut work = pool.clone();
    let mut state = 7u64;
    let mut expect = Vec::new();
    while expect.len() < 3 && !work.is_empty() {
        state = xorshift(state);
        let i = (state as usize) % work.len();
        let c = work.swap_remove(i);
        if !dead.has_card(c) {
            expect.push(c);
        }
    }
    assert_eq!(picks, expect);
    assert_eq!(prng.0, state);

    // Not enough live cards: every live card is drawn.
    let mut prng2 = FastPrng::new(3);
    let all = deal_runout(&mut prng2, &pool, 10, dead);
    assert_eq!(all.len(), 4);
}

#[test]
fn test_blind_positions() {
    assert_eq!(blind_positions(2, 0), (0, 1, 0));
    assert_eq!(blind_positions(3, 0), (1, 2, 0));
    assert_eq!(blind_positions(6, 4), (5, 0, 1));
    assert_eq!(blind_positions(3, 8), (0, 1, 2));
}

#[test]
fn test_next_to_act_wraps_and_skips() {
    assert_eq!(next_to_act(&[true, false, true, true], 0), 2);
    assert_eq!(next_to_act(&[true, false, false, false], 2), 0);
    assert_eq!(next_to_act(&[false, true, false], 1), 1);
    assert_eq!(next_to_act(&[true], 0), 0);
}

#[test]
fn test_street_progression_and_labels() {
    let mut s = Street::Preflop;
    let mut seen = vec![s];
    for _ in 0..5 {
        s = s.next();
        seen.push(s);
    }
    assert_eq!(
        seen,
        vec![Street::Preflop, Street::Flop, Street::Turn, Street::River, Street::Showdown, Street::HandEnded]
    );
    assert_eq!(Street::HandEnded.next(), Street::HandEnded);
    assert_eq!(LeakSeverity::Blunder.label(), "BLUNDER");
    assert_eq!(LeakSeverity::Optimal.label(), "OPTIMAL");
    assert_eq!(LeakSeverity::Mistake.label(), "MISTAKE");
    assert_eq!(LeakSeverity::Inaccuracy.label(), "INACCURACY");
}
