use vstd::prelude::*;

verus! {

/// The error kinds a leaderboard operation can report.
///
/// `InvalidRank` is returned when a caller asks to place an entry at a rank
/// below 1. `RankOutOfBounds` is returned when a removal or move names a rank
/// at which no entry currently sits. `MalformedState` is returned when a
/// persisted encoding cannot be decoded into a well-formed leaderboard.
/// `PersistenceFailure` is reserved for the storage collaborator that reads
/// and writes the backing file; the in-memory operations never produce it.
#[derive(Debug, Clone, Copy, PartialEq, Eq, Structural)]
pub enum LeaderboardError {
    InvalidRank,
    RankOutOfBounds,
    MalformedState,
    PersistenceFailure,
}

} // verus!
