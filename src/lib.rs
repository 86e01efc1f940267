//! A word-guessing game: the referee's feedback rule, the consistency check
//! that guessing strategies prune with, the game loop, and a reference
//! strategy.
pub mod algorithms;
pub mod dictionary;
pub mod feedback;
pub mod game;
pub mod guess;
pub mod word;

pub use feedback::Correctness;
pub use guess::Guess;
pub use game::{Guesser, InvalidGuess, Round, Wordle};
