//! Standings for recurring Hanabi seed competitions.
//!
//! The heart of the library is the standings nester: it takes the flat
//! per-player-per-game result rows that the standings view produces and
//! folds them into a ranked, gap-filled leaderboard, one entry per team.
//! Teams are not stored anywhere; they are inferred from the rows, because
//! players of one team play exactly the same games together.

pub mod competition;
pub mod dates;
pub mod game;
pub mod hlc;
pub mod numbers;
pub mod nested;
pub mod order;
pub mod routes;
pub mod rows;
pub mod series;


