//! A solver for Wordle-like games whose behaviour is stated in contracts and proved.
//!
//! A [`Guesser`] proposes words, learns from the result of each guess, and narrows down the words
//! that are still possible. [`RandomGuesser`] proposes any possible word, [`MaxScoreGuesser`] the
//! one to which a [`scorers::WordScorer`] gives the best score. [`play_game_with_guesser`] plays a
//! whole game with a guesser.
//!
//! What holds of games and of scores as a whole is stated in [`game_laws`] and [`score_laws`]. What
//! calls give is stated in [`result_laws`] for results, in [`word_laws`] for the words of guessers,
//! in [`choice_laws`] for guesses that are chosen by their scores, and in [`turn_laws`] for games.
pub mod choice_laws;
pub mod data;
pub mod engine;
pub mod game_laws;
pub mod max_score;
mod outside;
pub mod random;
pub mod ranking;
pub mod restrictions;
pub mod result_laws;
pub mod results;
pub mod score_laws;
pub mod scorers;
pub mod turn_laws;
pub mod word_laws;

pub use data::WordBank;
pub use engine::{play_game_with_guesser, GuessFrom, Guesser};
pub use max_score::{MaxScoreGuesser, ScoredGuess};
pub use random::RandomGuesser;
pub use restrictions::WordRestrictions;
pub use results::{
    get_result_for_guess, GameData, GameResult, GuessResult, LetterResult, TurnData, WordleError,
};
