//! A Wordle solver: the feedback model, the consistency filter, the guess
//! evaluator, the best-guess search and the game loop. Everything is verified
//! but the two parallel scans, which run on rayon behind trusted wrappers.
pub mod word;
pub mod feedback;
pub mod search;
pub mod game;
pub mod progress;
