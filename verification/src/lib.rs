//! The decision core of a mean-reversion scalper for one trading pair.

pub mod bot;
pub mod bot_laws;
pub mod bot_step_laws;
pub mod candle;
pub mod clock;
pub mod config;
pub mod dashboard;
pub mod db;
pub mod decision_laws;
pub mod double;
pub mod exchange;
pub mod natural;
pub mod orders;
pub mod strategy;
pub mod strategy_laws;
pub mod text;
