//! A constrained pairing engine: partitions a group of participants into
//! pairs (and at most one triple when the count is odd) so that, whenever
//! possible, no two participants who were matched together in a prior round
//! are matched again.

pub mod helpers;
pub mod matching;
pub mod pair;

pub use helpers::Match;
pub use helpers::Pairing;
