//! Cards, poker hand categories and the evaluation rules of the betting game
//! Commune, with machine-checked contracts.

pub mod adapters;
pub mod bet;
pub mod card;
pub mod combinatorics;
pub mod completion;
pub mod game;
pub mod needed;
pub mod order;
pub mod poker;
