//! Hand-history text: splitting a file into hands and reading one hand.
pub mod hand_parser;
pub mod watcher;

pub use hand_parser::{
    ActionRecord, HandHistoryParser, HandHistoryRecord, ParsedAction, SeatedPlayer,
};
pub use watcher::split_hand_blocks;
