//! The local UNO engine: cards, deck variants, draw rules, turns and events.

pub mod actions;
pub mod cards;
pub mod effects;
pub mod game;
pub mod hands;
pub mod laws;
pub mod plan_laws;
pub mod plus;
pub mod random;
pub mod rules;
pub mod setup;
pub mod turns;
