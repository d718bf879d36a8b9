//! Rules engine for a shogi variant whose pieces sit in a superposition of
//! types and whose board branches across world-lines and time steps.
pub mod commit;
pub mod error;
pub mod game;
pub mod laws;
pub mod piece;
pub mod rules;
pub mod snapshot;
pub mod sums;
pub mod text;
