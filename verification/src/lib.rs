//! A dice-notation roller: parses compact dice notation such as `2d6+1d4-3`
//! into a sequence of signed terms, then evaluates the terms against a
//! cached set of die generators, yielding a signed grand total or a
//! per-term breakdown.

pub mod dice;
pub mod diceroller;
pub mod notation;
pub mod random;

pub use diceroller::DiceRoller;
