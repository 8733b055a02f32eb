//! Exact expected value of a blackjack table for a given shoe composition.
//!
//! The engine enumerates every draw of the round (the four first cards, the
//! player's hits and doubles, the dealer's forced draws) without replacement,
//! the player following a fixed basic strategy. Probabilities are fixed-point
//! integers in units of `PROB_ONE` (10^18 per unit of probability), rounded
//! down at each branching point; expected values are in units of `EV_ONE`.
//! `model` states the result as spec functions, the engine is proved to compute
//! exactly that, and `laws` proves properties of it for every shoe.
pub mod types;
pub mod rules;
pub mod strategy;
pub mod model;
pub mod probability_calculator;
pub mod ev_calculator;
pub mod calculator;
pub mod laws;

pub use calculator::{create_full_8_deck, Calculator};
pub use rules::GameRules;
pub use types::{
    Action, BetType, Card, CardCounts, GameOutcome, GameResult, Hand, PlayingCard, PointCounts, Suit,
    TableEVResult, EV_ONE, PROB_ONE,
};
