//! A constraint-based candidate engine for a five-letter word guessing game.
//!
//! [`word_bank::WordBank`] holds the dictionary of valid words; [`game::Game`]
//! accumulates what is known about the hidden word and filters the dictionary.

pub mod constraints;
pub mod game;
pub mod guess;
pub mod heuristics;
pub mod lines;
pub mod session;
pub mod text;
pub mod word;
pub mod word_bank;
