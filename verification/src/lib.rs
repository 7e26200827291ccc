//! Tournament poker analytics: card encoding, deck bitboards, hand evaluation,
//! hole-card combinatorics, range strings, opponent hand classification, hand-history
//! reading, and the integer decisions of hand replay and Monte Carlo runouts.
pub mod api_bridge;
pub mod audit;
pub mod card;
pub mod deck;
pub mod eval;
pub mod orchestrator;
pub mod range;
pub mod sim;
pub mod text;

pub use card::{Card, CardParseError, Rank, Suit, RANK_PRIMES};
pub use deck::{DeckBitmask, DeckIterator, FULL_DECK_MASK};
pub use eval::{
    eval_5hand, eval_5hand_array, eval_7hand, eval_7hand_combos, eval_holdem, find_fast,
    HandRankCategory,
    COMBOS_7_CHOOSE_5,
};
pub use api_bridge::{
    split_hand_blocks, ActionRecord, HandHistoryParser, HandHistoryRecord, ParsedAction,
    SeatedPlayer,
};
pub use audit::LeakSeverity;
pub use orchestrator::{blind_positions, next_to_act, Street};
pub use range::{
    cards_to_combo, classify_combo, combo_to_bitmask, combo_to_cards, expand_hand_group,
    range_tokens, CanonicalHand, HandStrengthBucket, OpponentAction, OpponentArchetype,
    RangeParseError, RangeToken, ThreeTierBucket, NUM_HOLE_COMBOS,
};
pub use sim::{deal_runout, lowest_score_players, showdown_outcome, FastPrng, ShowdownOutcome};
