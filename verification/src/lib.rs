//! Rules of the checkers variant played by the contest backend: board model,
//! move generation, move application and the plain-text formats exchanged
//! with the players' programs.

pub mod game;
pub mod movegen;
pub mod shape;
pub mod rules;
pub mod text;
pub mod play;
pub mod contest;
pub mod laws;
pub mod search_laws;
pub mod distinct;
pub mod geometry;
pub mod quiet;
pub mod chains;
pub mod formats;
