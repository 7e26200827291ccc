//! Betting-street progression and seat arithmetic of a hand.
pub mod event_bus;
pub mod table;

pub use event_bus::Street;
pub use table::{blind_positions, next_to_act};
