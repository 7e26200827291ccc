//! Hole-card combinations, range-string grammar and opponent hand classification.
pub mod combo;
pub mod filter;
pub mod parse;

pub use combo::{
    cards_to_combo, combo_to_bitmask, combo_to_cards, init_combo_tables, CanonicalHand, ComboTables,
    NUM_HOLE_COMBOS,
};
pub use filter::{
    classify_combo, HandStrengthBucket, OpponentAction, OpponentArchetype, ThreeTierBucket,
};
pub use parse::{expand_hand_group, range_tokens, RangeParseError, RangeToken};
