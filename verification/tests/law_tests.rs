use poker_analyse::api_bridge::split_hand_blocks;
use poker_analyse::combo_to_cards;
use poker_analyse::{
    eval_5hand, eval_7hand, find_fast, Card, CardParseError, CanonicalHand, DeckBitmask, Rank,
    Suit, COMBOS_7_CHOOSE_5, NUM_HOLE_COMBOS,
};

fn card(s: &str) -> Card {
    Card::from_str_exact(s).expect("card name")
}

#[test]
fn test_card_name_round_trip_in_both_cases() {
    for &rank in &Rank::ALL {
        for &suit in &Suit::ALL {
            let c = Card::new(rank, suit);
            let name = c.to_string();
            assert_eq!(Card::from_str_exact(&name), Ok(c));
            assert_eq!(Card::from_str_exact(&name.to_lowercase()), Ok(c));
        }
    }
    assert_eq!(card("ah"), card("Ah"));
    assert_eq!(card("ts"), Card::new(Rank::Ten, Suit::Spades));
}

#[test]
fn test_seven_card_score_ignores_card_order() {
    let cards = [
        card("Ah"),
        card("Kd"),
        card("Qh"),
        card("Jh"),
        card("2c"),
        card("Th"),
        card("9s"),
    ];
    let base = eval_7hand(&cards);
    for shift in 0..7 {
        let mut rotated = cards;
        rotated.rotate_left(shift);
        assert_eq!(eval_7hand(&rotated), base);
        let mut reversed = rotated;
        reversed.reverse();
        assert_eq!(eval_7hand(&reversed), base);
    }
}

#[test]
fn test_seven_card_score_is_best_five() {
    let cards = [
        card("8s"),
        card("7h"),
        card("6d"),
        card("4c"),
        card("3s"),
        card("2h"),
        card("9d"),
    ];
    let best = eval_7hand(&cards);
    let mut lowest = u16::MAX;
    for row in COMBOS_7_CHOOSE_5.iter() {
        let s = eval_5hand(
            cards[row[0]],
            cards[row[1]],
            cards[row[2]],
            cards[row[3]],
            cards[row[4]],
        );
        assert!(best <= s);
        lowest = lowest.min(s);
    }
    assert_eq!(best, lowest);
    assert!((6186..=7462).contains(&best));
}

#[test]
fn test_five_card_score_ignores_suit_names() {
    let hearts = eval_5hand(card("Ah"), card("Kh"), card("Qh"), card("Jh"), card("Th"));
    let spades = eval_5hand(card("Ts"), card("Js"), card("Qs"), card("Ks"), card("As"));
    assert_eq!(hearts, 1);
    assert_eq!(spades, 1);
    // Two pair, with spades and hearts swapped and diamonds renamed clubs.
    let a = eval_5hand(card("As"), card("Ah"), card("Kd"), card("Ks"), card("2h"));
    let b = eval_5hand(card("Ah"), card("As"), card("Kc"), card("Kh"), card("2s"));
    assert_eq!(a, b);
}

#[test]
fn test_deck_iteration_each_card_once_in_order() {
    let deck = DeckBitmask::from_str_multi("Jc2cAhKsQd").unwrap();
    let mut it = deck.iter();
    assert_eq!(it.size_hint().0, 5);
    let mut seen = Vec::new();
    while let Some(c) = it.next() {
        assert!(deck.has_card(c));
        seen.push(c);
    }
    assert_eq!(seen.len() as u32, deck.count());
    for w in seen.windows(2) {
        assert!(w[0].index() < w[1].index());
    }
    assert_eq!(seen[0], card("2c"));
    assert_eq!(seen[4], card("Ah"));
    assert!(it.next().is_none());
}

#[test]
fn test_from_str_multi_cases() {
    assert_eq!(DeckBitmask::from_str_multi("  ").unwrap(), DeckBitmask::empty());
    assert_eq!(
        DeckBitmask::from_str_multi("AhK"),
        Err(CardParseError::InvalidLength(3))
    );
    assert_eq!(
        DeckBitmask::from_str_multi("AhXsYd"),
        Err(CardParseError::InvalidRankChar('X'))
    );
    assert_eq!(
        DeckBitmask::from_str_multi("Ah2x"),
        Err(CardParseError::InvalidSuitChar('x'))
    );
    let repeated = DeckBitmask::from_str_multi("AhKsah").unwrap();
    assert_eq!(repeated.count(), 2);
    assert!(repeated.has_card(card("Ah")) && repeated.has_card(card("Ks")));
}

#[test]
fn test_canonical_hands_cover_every_combo_once() {
    let mut hands = Vec::new();
    for (i, &hi) in Rank::ALL.iter().enumerate() {
        hands.push(CanonicalHand::Pair(hi));
        for &lo in Rank::ALL.iter().take(i) {
            hands.push(CanonicalHand::Suited(hi, lo));
            hands.push(CanonicalHand::Offsuit(hi, lo));
        }
    }
    assert_eq!(hands.len(), 169);
    let mut hits = vec![0u32; NUM_HOLE_COMBOS];
    for h in &hands {
        let combos = h.combo_indices();
        assert_eq!(combos.len(), h.num_combos());
        for &i in &combos {
            hits[i] += 1;
        }
    }
    assert!(hits.iter().all(|&n| n == 1));
    assert_eq!(hits.iter().sum::<u32>(), 1326);
}

#[test]
fn test_hand_blocks_open_at_header_lines() {
    let text = "notes from the session\nPokerStars Hand #1: first\nSeat 1: A\n\nHand #2: second\nSeat 1: B\nPokerStars Hand #3: third\n";
    let blocks = split_hand_blocks(text);
    assert_eq!(blocks.len(), 4);
    assert_eq!(blocks[0], "notes from the session\n");
    assert!(blocks[1].starts_with("PokerStars Hand #1"));
    assert!(blocks[2].starts_with("Hand #2"));
    assert!(blocks[3].starts_with("PokerStars Hand #3"));
    assert_eq!(blocks.concat(), text);
}

#[test]
fn test_hand_blocks_count_without_preface() {
    let text = "\n   \nHand #1: first\nSeat 1: A\nHand #2: second\n";
    let blocks = split_hand_blocks(text);
    assert_eq!(blocks.len(), 2);
    assert_eq!(blocks[0], "\n   \nHand #1: first\nSeat 1: A\n");
    assert_eq!(blocks[1], "Hand #2: second\n");
    assert!(split_hand_blocks("  \n\t\n").is_empty());
    assert_eq!(split_hand_blocks("no header here\n").len(), 1);
}

#[test]
fn test_find_fast_hash_values() {
    let zeros = [0u16; 512];
    assert_eq!(find_fast(2310, &zeros), 522);
    assert_eq!(find_fast(104553157, &zeros), 2392);
    let mut adjust = [0u16; 512];
    adjust[316] = 7;
    adjust[190] = 7;
    assert_eq!(find_fast(2310, &adjust), 525);
    assert_eq!(find_fast(104553157, &adjust), 2399);
    assert!(find_fast(u32::MAX, &[0xFFFF; 512]) <= 0x1FFF);
}

#[test]
fn test_canonical_combos_carry_ranks_and_suitedness() {
    for (i, &hi) in Rank::ALL.iter().enumerate() {
        for &lo in Rank::ALL.iter().take(i + 1) {
            let hands = if hi == lo {
                vec![CanonicalHand::Pair(hi)]
            } else {
                vec![CanonicalHand::Suited(hi, lo), CanonicalHand::Offsuit(hi, lo)]
            };
            for h in hands {
                for idx in h.combo_indices() {
                    let (a, b) = combo_to_cards(idx);
                    let ranks = [a.rank(), b.rank()];
                    assert!(ranks.contains(&hi) && ranks.contains(&lo));
                    let suited = a.suit() == b.suit();
                    assert_eq!(suited, matches!(h, CanonicalHand::Suited(_, _)));
                }
            }
        }
    }
}
