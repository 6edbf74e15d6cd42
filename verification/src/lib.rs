//! A self-play reinforcement-learning trainer and move advisor for the
//! two-player finger-counting game of chopsticks: each player has two hands
//! holding 0 to 4 fingers, a move either transfers a live hand's count onto a
//! live opponent hand (values above 4 reset to 0) or redistributes the mover's
//! own total between their two hands, and a player whose hands are both dead
//! loses.
//!
//! Win-probability estimates are kept as exact rationals over a fixed scale,
//! stored in tables keyed by unordered hand pairs, and updated with an
//! every-visit incremental-mean rule over finished game trajectories.

pub mod model;
pub mod moves;
pub mod prob;
mod randsrc;
pub mod selfplay;
pub mod table;
