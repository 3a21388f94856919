//! A verified rank-ordered entry list.
//!
//! A [`Leaderboard`] holds named entries at contiguous 1-based ranks and
//! keeps that ordering under insertion, removal and rank changes. Every list
//! can be written to and read back from a JSON encoding, and the round trip
//! is proved to reproduce the list exactly.

pub mod digits;
pub mod errors;
pub mod json;
pub mod leaderboard;
pub mod node;
pub mod parser;
pub mod roundtrip;
mod text;

pub use crate::errors::LeaderboardError;
pub use crate::leaderboard::Leaderboard;
pub use crate::node::{EntryModel, Node};
