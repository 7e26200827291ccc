use poker_analyse::range::{
    cards_to_combo, combo_to_bitmask, combo_to_cards, expand_hand_group, range_tokens,
    CanonicalHand, RangeParseError, NUM_HOLE_COMBOS,
};
use poker_analyse::{Card, DeckBitmask, Rank};
use std::collections::HashSet;

/// Total weight of a range string: each token's weight (1.0 when it names none) times the
/// number of combos its hand group names, counting every combo once with its last weight.
fn total_weight(input: &str) -> f32 {
    let mut weights = vec![0.0f32; NUM_HOLE_COMBOS];
    for tok in range_tokens(input) {
        let w = match &tok.weight {
            Some(text) => text.parse::<f32>().unwrap(),
            None => 1.0,
        };
        for idx in expand_hand_group(&tok.spec).unwrap() {
            weights[idx] = w;
        }
    }
    weights.iter().sum()
}

#[test]
fn test_all_1326_combos_bijection() {
    assert_eq!(NUM_HOLE_COMBOS, 1326);

    let mut seen_indices = HashSet::new();

    for c1_idx in 0..52 {
        let card1 = Card::from_index(c1_idx).unwrap();
        for c2_idx in (c1_idx + 1)..52 {
            let card2 = Card::from_index(c2_idx).unwrap();

            let idx = cards_to_combo(card1, card2);
            assert!(idx < NUM_HOLE_COMBOS, "Combo index {idx} out of range [0, 1326)");

            assert_eq!(cards_to_combo(card2, card1), idx, "cards_to_combo must be order-independent");

            assert!(seen_indices.insert(idx), "Duplicate combo index detected: {idx}");

            let (ret_c1, ret_c2) = combo_to_cards(idx);
            assert_eq!(ret_c1, card1);
            assert_eq!(ret_c2, card2);

            let mask = combo_to_bitmask(idx);
            assert_eq!(mask.count(), 2);
            assert!(mask.has_card(card1));
            assert!(mask.has_card(card2));
        }
    }

    assert_eq!(seen_indices.len(), 1326, "All 1326 combinations must be uniquely indexed");
}

#[test]
fn test_canonical_169_hands_partition() {
    let mut total_combos_seen = 0;
    let mut combo_set = HashSet::new();

    for r in 0..13 {
        let hand = CanonicalHand::Pair(Rank::ALL[r]);
        let combos = hand.combo_indices();
        assert_eq!(combos.len(), 6);
        for idx in combos {
            assert!(combo_set.insert(idx));
            total_combos_seen += 1;
        }
    }
    assert_eq!(total_combos_seen, 78);

    for r1 in 0..13 {
        for r2 in 0..r1 {
            let hand = CanonicalHand::Suited(Rank::ALL[r1], Rank::ALL[r2]);
            let combos = hand.combo_indices();
            assert_eq!(combos.len(), 4);
            for idx in combos {
                assert!(combo_set.insert(idx));
                total_combos_seen += 1;
            }
        }
    }
    assert_eq!(total_combos_seen, 78 + 312);

    for r1 in 0..13 {
        for r2 in 0..r1 {
            let hand = CanonicalHand::Offsuit(Rank::ALL[r1], Rank::ALL[r2]);
            let combos = hand.combo_indices();
            assert_eq!(combos.len(), 12);
            for idx in combos {
                assert!(combo_set.insert(idx));
                total_combos_seen += 1;
            }
        }
    }

    assert_eq!(total_combos_seen, 1326);
    assert_eq!(combo_set.len(), 1326);
}

#[test]
fn test_range_parser_syntax() {
    assert_eq!(total_weight("AA"), 6.0);
    assert_eq!(total_weight("AKs"), 4.0);
    assert_eq!(total_weight("AKo"), 12.0);
    assert_eq!(total_weight("AK"), 16.0);
    assert_eq!(total_weight("TT+"), 30.0);
    assert_eq!(total_weight("ATs+"), 16.0);
    assert_eq!(total_weight("AJo+"), 36.0);
    assert_eq!(total_weight("99-77"), 18.0);
    assert_eq!(total_weight("A5s-A2s"), 16.0);
    assert_eq!(total_weight("0.5*AA, 0.25*KK"), 6.0 * 0.5 + 6.0 * 0.25);

    assert_eq!(total_weight("AhKh"), 1.0);
    let ah = Card::from_str_exact("Ah").unwrap();
    let kh = Card::from_str_exact("Kh").unwrap();
    let combos = expand_hand_group("AhKh").unwrap();
    assert_eq!(combos, vec![cards_to_combo(ah, kh)]);
}

#[test]
fn test_blocker_removal_combinatorics() {
    let live = |dead: DeckBitmask| -> usize {
        (0..NUM_HOLE_COMBOS).filter(|&i| (combo_to_bitmask(i) & dead).is_empty()).count()
    };
    assert_eq!(live(DeckBitmask::empty()), 1326);

    let ah = Card::from_str_exact("Ah").unwrap();
    let kh = Card::from_str_exact("Kh").unwrap();
    let mut dead = DeckBitmask::empty();
    dead.add_card(ah);
    dead.add_card(kh);
    assert_eq!(live(dead), 1225);
    assert!(!(combo_to_bitmask(cards_to_combo(ah, kh)) & dead).is_empty());

    dead.add_card(Card::from_str_exact("Qh").unwrap());
    dead.add_card(Card::from_str_exact("Jh").unwrap());
    dead.add_card(Card::from_str_exact("Th").unwrap());
    assert_eq!(live(dead), 1081);
}

#[test]
fn test_range_tokens_weights_and_separators() {
    let toks = range_tokens(" 0.5*AA ; KK:0.25,, QQ  ");
    assert_eq!(toks.len(), 3);
    assert_eq!(toks[0].weight.as_deref(), Some("0.5"));
    assert_eq!(toks[0].spec, "AA");
    assert_eq!(toks[1].weight.as_deref(), Some("0.25"));
    assert_eq!(toks[1].spec, "KK");
    assert_eq!(toks[2].weight, None);
    assert_eq!(toks[2].spec, "QQ");
    assert!(range_tokens("   ").is_empty());
}

#[test]
fn test_hand_group_orders_and_errors() {
    // Dash ranges may be written in either direction.
    assert_eq!(expand_hand_group("66-99").unwrap().len(), 24);
    assert_eq!(expand_hand_group("K9o-KJo").unwrap().len(), 36);
    // AA+ is just AA.
    assert_eq!(expand_hand_group("AA+").unwrap().len(), 6);
    // Combos are grouped by category in enumeration order.
    let aa = CanonicalHand::Pair(Rank::Ace).combo_indices();
    let kk = CanonicalHand::Pair(Rank::King).combo_indices();
    let mut both = kk.clone();
    both.extend(aa.iter().copied());
    assert_eq!(expand_hand_group("KK+").unwrap(), both);

    assert_eq!(expand_hand_group("AX"), Err(RangeParseError::InvalidRank('X')));
    assert_eq!(expand_hand_group("AKx"), Err(RangeParseError::InvalidToken("AKx".to_string())));
    assert_eq!(expand_hand_group("KAs+"), Err(RangeParseError::InvalidRankOrder("KAs".to_string())));
    assert_eq!(expand_hand_group("AKQJ2"), Err(RangeParseError::InvalidToken("AKQJ2".to_string())));
    assert_eq!(expand_hand_group("A5s-K2s"), Err(RangeParseError::InvalidToken("A5s-K2s".to_string())));
    assert_eq!(expand_hand_group("A5x-A2x"), Err(RangeParseError::InvalidToken("A5x".to_string())));
    // Four bytes that are not two cards are read as a category.
    assert_eq!(expand_hand_group("AKs+").unwrap().len(), 4);
}
