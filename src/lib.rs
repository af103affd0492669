//! Chart parsing, tempo resolution, note timing and score accounting for a
//! four-column rhythm game.

pub mod exact;
pub mod position;
pub mod decimal;
pub mod notedata;
pub mod timingdata;
