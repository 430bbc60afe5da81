//! A grid-maze escape game: a maze generator whose mazes are always solvable,
//! a breadth-first connectivity check, the moves of the actors on the board,
//! and the framing and state machines of a two-peer session through a relay.
pub mod actors;
pub mod generator;
pub mod grid;
pub mod reach;
pub mod relay;
pub mod session;
