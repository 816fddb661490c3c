//! A solver for a five-letter word-guessing game.
//!
//! A guess is answered by a packed feedback code that marks, position by
//! position, an exact match, a letter that occurs elsewhere in the secret, or
//! an absent letter. The candidate list is filtered by the feedback observed,
//! and one of two scoring strategies proposes the next guess.
pub mod agent;
pub mod eliminate;
pub mod game;
mod parallel;
pub mod response;
pub mod select;
pub mod tally;
pub mod word;
