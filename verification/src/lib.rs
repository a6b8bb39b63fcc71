//! Simulation engine for the WorldWarBot game: map topology searches, conquest,
//! capitulation and riot mechanics, game-state bookkeeping, the validation rules
//! that replayed rounds of the real game must satisfy, the start of a new game and
//! the ranking of simulated winners.

pub mod graph;
pub mod state;
mod rng;
pub mod game;
pub mod laws;
pub mod gamestate;
pub mod calendar;
pub mod text;
pub mod country;
pub mod topology;
pub mod json;
pub mod rounds;
pub mod replay;
pub mod standings;
pub mod reset;
