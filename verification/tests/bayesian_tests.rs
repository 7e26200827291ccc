use poker_analyse::range::{classify_combo, HandStrengthBucket, ThreeTierBucket};
use poker_analyse::Card;

#[test]
fn test_combo_classification_board_textures() {
    let parse_card = |s| Card::from_str_exact(s).unwrap();

    let board_dry = [parse_card("Kh"), parse_card("8c"), parse_card("3d")];
    assert_eq!(classify_combo(parse_card("Ah"), parse_card("Kd"), &board_dry), HandStrengthBucket::Strong);
    assert_eq!(classify_combo(parse_card("Kd"), parse_card("8d"), &board_dry), HandStrengthBucket::Strong);
    assert_eq!(classify_combo(parse_card("8s"), parse_card("7s"), &board_dry), HandStrengthBucket::Marginal);
    assert_eq!(classify_combo(parse_card("2h"), parse_card("2c"), &board_dry), HandStrengthBucket::Marginal);
    assert_eq!(classify_combo(parse_card("8d"), parse_card("8h"), &board_dry), HandStrengthBucket::Monster);
    assert_eq!(classify_combo(parse_card("6s"), parse_card("5s"), &board_dry), HandStrengthBucket::Air);

    let board_wet = [parse_card("Ah"), parse_card("Kd"), parse_card("2h")];
    assert_eq!(classify_combo(parse_card("Qh"), parse_card("Jh"), &board_wet), HandStrengthBucket::Draw);
    assert_eq!(classify_combo(parse_card("9h"), parse_card("8h"), &board_wet), HandStrengthBucket::Draw);
    assert_eq!(classify_combo(parse_card("2s"), parse_card("2c"), &board_wet), HandStrengthBucket::Monster);
    assert_eq!(classify_combo(parse_card("Ac"), parse_card("Qd"), &board_wet), HandStrengthBucket::Strong);
    assert_eq!(classify_combo(parse_card("Ac"), parse_card("3d"), &board_wet), HandStrengthBucket::Marginal);
}

#[test]
fn test_three_tier_mapping() {
    assert_eq!(HandStrengthBucket::Air.to_three_tier(), ThreeTierBucket::Air);
    assert_eq!(HandStrengthBucket::Draw.to_three_tier(), ThreeTierBucket::Marginal);
    assert_eq!(HandStrengthBucket::Marginal.to_three_tier(), ThreeTierBucket::Marginal);
    assert_eq!(HandStrengthBucket::Strong.to_three_tier(), ThreeTierBucket::Strong);
    assert_eq!(HandStrengthBucket::Monster.to_three_tier(), ThreeTierBucket::Strong);
}

#[test]
fn test_preflop_buckets() {
    let c = |s| Card::from_str_exact(s).unwrap();
    assert_eq!(classify_combo(c("As"), c("Ad"), &[]), HandStrengthBucket::Monster);
    assert_eq!(classify_combo(c("7s"), c("2d"), &[]), HandStrengthBucket::Air);
    // TT, JJ, QQ, KK, AA
    assert_eq!(classify_combo(c("Th"), c("Td"), &[]), HandStrengthBucket::Monster);
    assert_eq!(classify_combo(c("Jh"), c("Jd"), &[]), HandStrengthBucket::Monster);
    // 77, 88, 99
    assert_eq!(classify_combo(c("7h"), c("7d"), &[]), HandStrengthBucket::Strong);
    assert_eq!(classify_combo(c("8h"), c("8d"), &[]), HandStrengthBucket::Strong);
    assert_eq!(classify_combo(c("9h"), c("9d"), &[]), HandStrengthBucket::Strong);
    // 22-66
    assert_eq!(classify_combo(c("6h"), c("6d"), &[]), HandStrengthBucket::Marginal);
    assert_eq!(classify_combo(c("2h"), c("2d"), &[]), HandStrengthBucket::Marginal);
    // AK, AQ, AJ
    assert_eq!(classify_combo(c("Ah"), c("Jh"), &[]), HandStrengthBucket::Strong);
    assert_eq!(classify_combo(c("Ah"), c("Jd"), &[]), HandStrengthBucket::Strong);
    assert_eq!(classify_combo(c("Kd"), c("Ah"), &[]), HandStrengthBucket::Strong);
    // A2s-ATs, ATo
    assert_eq!(classify_combo(c("Ah"), c("Th"), &[]), HandStrengthBucket::Marginal);
    assert_eq!(classify_combo(c("Ah"), c("2h"), &[]), HandStrengthBucket::Marginal);
    assert_eq!(classify_combo(c("Ah"), c("Td"), &[]), HandStrengthBucket::Marginal);
    assert_eq!(classify_combo(c("Ah"), c("9d"), &[]), HandStrengthBucket::Air);
    // KQ, KJ, QJ
    assert_eq!(classify_combo(c("Kh"), c("Qh"), &[]), HandStrengthBucket::Strong);
    assert_eq!(classify_combo(c("Qh"), c("Jd"), &[]), HandStrengthBucket::Marginal);
    // Suited connectors 54s - T9s
    assert_eq!(classify_combo(c("5s"), c("4s"), &[]), HandStrengthBucket::Draw);
    assert_eq!(classify_combo(c("6s"), c("5s"), &[]), HandStrengthBucket::Draw);
    assert_eq!(classify_combo(c("Ts"), c("9s"), &[]), HandStrengthBucket::Draw);
    assert_eq!(classify_combo(c("4s"), c("3s"), &[]), HandStrengthBucket::Air);
    assert_eq!(classify_combo(c("Js"), c("Ts"), &[]), HandStrengthBucket::Air);
    assert_eq!(classify_combo(c("6s"), c("5d"), &[]), HandStrengthBucket::Air);
}
