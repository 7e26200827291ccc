use poker_analyse::api_bridge::{split_hand_blocks, HandHistoryParser, ParsedAction};
use poker_analyse::{Card, Street};

const SAMPLE_POKERSTARS_HAND: &str = r#"
PokerStars Hand #24019283012: Tournament #552019382, $20+$2 USD Hold'em No Limit - Level II (15/30) - 2026/09/05 18:00:00 ET
Table '552019382 3' 9-max Seat #1 is the button
Seat 1: ButtonGuy (1500 in chips)
Seat 2: SmallBlindUser (1450 in chips)
Seat 3: BigBlindUser (1600 in chips)
Seat 4: UnderTheGun (2000 in chips)
Seat 5: Hero (2500 in chips)
SmallBlindUser: posts small blind 15
BigBlindUser: posts big blind 30
*** HOLE CARDS ***
Dealt to Hero [Ah Kd]
UnderTheGun: folds
Hero: raises 60 to 90
ButtonGuy: folds
SmallBlindUser: folds
BigBlindUser: calls 60
*** FLOP *** [As 7c 2d]
BigBlindUser: checks
Hero: bets 120
BigBlindUser: calls 120
*** TURN *** [As 7c 2d] [Qh]
BigBlindUser: checks
Hero: checks
*** RIVER *** [As 7c 2d Qh] [6s]
BigBlindUser: bets 200
Hero: calls 200
*** SHOW DOWN ***
BigBlindUser: shows [Ac Ts] (a pair of Aces)
Hero: shows [Ah Kd] (a pair of Aces - King kicker)
Hero collected 855 from pot
*** SUMMARY ***
Total pot 855 | Rake 0
Board [As 7c 2d Qh 6s]
Seat 5: Hero showed [Ah Kd] and won (855) with a pair of Aces
"#;

fn amount(text: &Option<String>) -> f64 {
    text.as_deref().map(|t| t.parse::<f64>().unwrap()).unwrap_or(0.0)
}

#[test]
fn test_parse_pokerstars_tournament_hand() {
    let parsed = HandHistoryParser::parse(SAMPLE_POKERSTARS_HAND)
        .expect("Failed to parse PokerStars hand history");

    assert_eq!(parsed.hand_id, 24019283012);
    assert_eq!(parsed.tournament_id, Some(552019382));
    assert_eq!(amount(&parsed.sb_amount), 15.0);
    assert_eq!(amount(&parsed.bb_amount), 30.0);
    assert_eq!(parsed.button_seat, 1);
    assert_eq!(parsed.hero_name.as_deref(), Some("Hero"));

    let ah = Card::from_str_exact("Ah").unwrap();
    let kd = Card::from_str_exact("Kd").unwrap();
    assert_eq!(parsed.hero_cards, Some([ah, kd]));

    assert_eq!(parsed.players.len(), 5);
    assert_eq!(parsed.players[0].name, "ButtonGuy");
    assert_eq!(parsed.players[4].name, "Hero");
    assert_eq!(parsed.players[4].stack.parse::<f64>().unwrap(), 2500.0);
    let hole = parsed.players[4].hole_cards.map(|c| [c[0].to_string(), c[1].to_string()]);
    assert_eq!(hole, Some(["Ah".to_string(), "Kd".to_string()]));

    assert_eq!(parsed.board_cards.len(), 5);
    assert_eq!(parsed.board_cards[0], Card::from_str_exact("As").unwrap());
    assert_eq!(parsed.board_cards[1], Card::from_str_exact("7c").unwrap());
    assert_eq!(parsed.board_cards[2], Card::from_str_exact("2d").unwrap());
    assert_eq!(parsed.board_cards[3], Card::from_str_exact("Qh").unwrap());
    assert_eq!(parsed.board_cards[4], Card::from_str_exact("6s").unwrap());

    assert!(!parsed.actions.is_empty());
    let hero_preflop_raise = parsed
        .actions
        .iter()
        .find(|a| a.player_idx == 4 && a.street == Street::Preflop);
    assert!(hero_preflop_raise.is_some());
    match &hero_preflop_raise.unwrap().action {
        ParsedAction::Raise(Some(t)) => assert_eq!(t.parse::<f64>().unwrap(), 90.0),
        other => panic!("unexpected action {other:?}"),
    }

    // The scenario built from it: five players, the hero at position 4, five board cards.
    let hero_idx = parsed
        .players
        .iter()
        .position(|p| Some(p.name.as_str()) == parsed.hero_name.as_deref());
    assert_eq!(parsed.players.len(), 5);
    assert_eq!(hero_idx, Some(4));
    assert_eq!(parsed.board_cards.len(), 5);
}

#[test]
fn test_parse_actions_by_street_and_amounts() {
    let parsed = HandHistoryParser::parse(SAMPLE_POKERSTARS_HAND).unwrap();
    // UTG fold, hero raise, button fold, SB fold, BB call; flop check, bet, call;
    // turn check, check; river bet, call.
    assert_eq!(parsed.actions.len(), 12);
    assert_eq!(parsed.actions[0].street, Street::Preflop);
    assert_eq!(parsed.actions[0].player_idx, 3);
    assert_eq!(parsed.actions[0].action, ParsedAction::Fold);
    assert_eq!(parsed.actions[4].action, ParsedAction::Call(Some("60".to_string())));
    assert_eq!(parsed.actions[5].street, Street::Flop);
    assert_eq!(parsed.actions[5].action, ParsedAction::Check);
    assert_eq!(parsed.actions[6].action, ParsedAction::Bet(Some("120".to_string())));
    assert_eq!(parsed.actions[8].street, Street::Turn);
    assert_eq!(parsed.actions[10].street, Street::River);
    assert_eq!(parsed.actions[10].player_idx, 2);
    assert_eq!(parsed.ante_amount, None);
}

#[test]
fn test_parse_without_seats_is_an_error() {
    let r = HandHistoryParser::parse("PokerStars Hand #1: Hold'em (10/20)\nHero: folds\n");
    assert_eq!(r, Err("Failed to parse seat definitions from hand history".to_string()));
}

#[test]
fn test_parse_all_in_ante_and_duplicate_seat() {
    let text = "Hand #77: Hold'em No Limit (25/50) - x\n\
                Seat 2: Bob (900 in chips)\n\
                Seat 1: Ann (1200.5 in chips)\n\
                Seat 2: Bob (950 in chips)\n\
                Ann: posts the ante 5\n\
                *** HOLE CARDS ***\n\
                Ann: raises 100 to 300 and is all-in\n\
                Bob: bets lots\n\
                Carl: calls 50\n";
    let parsed = HandHistoryParser::parse(text).unwrap();
    assert_eq!(parsed.hand_id, 77);
    assert_eq!(parsed.tournament_id, None);
    assert_eq!(parsed.sb_amount.as_deref(), Some("25"));
    assert_eq!(parsed.bb_amount.as_deref(), Some("50"));
    assert_eq!(parsed.ante_amount.as_deref(), Some("5"));
    assert_eq!(parsed.players.len(), 2);
    assert_eq!(parsed.players[0].name, "Ann");
    assert_eq!(parsed.players[0].stack, "1200.5");
    assert_eq!(parsed.players[1].stack, "950");
    assert_eq!(parsed.actions.len(), 2);
    assert_eq!(parsed.actions[0].action, ParsedAction::AllIn(Some("300".to_string())));
    assert_eq!(parsed.actions[1].action, ParsedAction::Bet(None));
    assert_eq!(parsed.hero_cards, None);
}

#[test]
fn test_is_readable_flags_misordered_brackets() {
    assert!(HandHistoryParser::is_readable(SAMPLE_POKERSTARS_HAND));
    assert!(!HandHistoryParser::is_readable("Dealt to Hero ] Ah Kd ["));
    assert!(!HandHistoryParser::is_readable("*** FLOP *** ] As 7c 2d ["));
    assert!(HandHistoryParser::is_readable("*** TURN *** ] [Qh"));
}

#[test]
fn test_split_hand_blocks_on_headers() {
    let text = "\nPokerStars Hand #1: x\nSeat 1: A (10 in chips)\n\nHand #2: y\nSeat 1: B (20 in chips)\r\n  \n";
    let blocks = split_hand_blocks(text);
    assert_eq!(blocks.len(), 2);
    assert_eq!(blocks[0], "\nPokerStars Hand #1: x\nSeat 1: A (10 in chips)\n\n");
    assert_eq!(blocks[1], "Hand #2: y\nSeat 1: B (20 in chips)\n  \n");
    assert!(split_hand_blocks("  \n\n").is_empty());
    assert_eq!(split_hand_blocks("Hand #3").len(), 1);
}

#[test]
fn test_amount_literals_follow_float_grammar() {
    let text = "Hand #5: x (1e1/+2.)\n\
                Seat 1: A (1.5E3 in chips)\n\
                Seat 2: B (12abc in chips)\n\
                Seat 3: C (.5 in chips)\n\
                Seat 4: D (inf in chips)\n\
                Seat 5: E (1e in chips)\n\
                Seat 6: F (. in chips)\n\
                Seat 7: G (-NaN in chips)\n\
                Seat 8: H ( 7 in chips)\n";
    let parsed = HandHistoryParser::parse(text).unwrap();
    assert_eq!(parsed.sb_amount.as_deref(), Some("1e1"));
    assert_eq!(parsed.bb_amount.as_deref(), Some("+2."));
    let stacks: Vec<(&str, &str)> =
        parsed.players.iter().map(|p| (p.name.as_str(), p.stack.as_str())).collect();
    assert_eq!(stacks, vec![("A", "1.5E3"), ("C", ".5"), ("D", "inf"), ("G", "-NaN"), ("H", "7")]);
    for p in &parsed.players {
        assert!(p.stack.parse::<f64>().is_ok());
    }
    for bad in ["12abc", "1e", ".", "1e+", "--1", " 1"] {
        assert!(bad.parse::<f64>().is_err());
    }
}

#[test]
fn test_hand_id_overflow_and_plus_sign() {
    let big = "Hand #18446744073709551616: x\nSeat 1: A (1 in chips)\n";
    assert_eq!(HandHistoryParser::parse(big).unwrap().hand_id, 0);
    let max = "Hand #18446744073709551615: x\nSeat 1: A (1 in chips)\n";
    assert_eq!(HandHistoryParser::parse(max).unwrap().hand_id, u64::MAX);
    let plus = "Hand # +42 : x\nSeat 1: A (1 in chips)\n";
    assert_eq!(HandHistoryParser::parse(plus).unwrap().hand_id, 42);
}
