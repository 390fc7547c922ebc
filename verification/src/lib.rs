//! Rules engine for a single-player Klondike patience game.
//!
//! The crate tracks a 52-card deck split across a draw stock, seven tableau
//! piles and four suit foundations, enumerates and executes legal moves,
//! undoes them, and resolves ambiguous inputs across two pointer events.
//! Rendering and input plumbing are left to the caller, which talks to the
//! engine through abstract pointer coordinates and board snapshots.

pub mod calc;
pub mod cards;
pub mod execute;
pub mod game;
pub mod hit;
pub mod laws;
pub mod moves;
pub mod pile;
pub mod reachable;
pub mod resolve;
pub mod shuffle;
pub mod snapshot;
pub mod undo;
