//! Swiss-style tournament pairing.
//!
//! A pool of competitors with running win/loss/tie records is turned, round by
//! round, into head-to-head pairings: competitors with equal match points meet,
//! nobody meets the opponent of the round before again where that can be
//! helped, and at most one competitor sits a round out with a bye.
//!
//! - `player`: competitors and their records.
//! - `swiss`: outcomes, scoring, pairings, and the engine that pairs a pool.
//! - `round`: what a round is, in mathematical terms.
//! - `laws`: what holds of every round and of every resolved pairing.
//! - `steps` and `bags`: what the laws are proved from.
//! - `tournament`: the rounds of a tournament, one after the other.
//! - `record`: the stored form of a tournament.
//! - `reload`: why a stored tournament comes back as it was.

pub mod bags;
pub mod laws;
pub mod player;
pub mod record;
pub mod reload;
pub mod round;
pub mod steps;
pub mod swiss;
pub mod tournament;
