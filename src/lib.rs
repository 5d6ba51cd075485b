//! A Hearts engine: card model, trick rules, belief states, determinization and
//! Monte-Carlo tree search, with their behaviour stated as verified contracts.
pub mod cards;
pub mod rules;
pub mod game;
pub mod belief;
pub mod random;
pub mod determinize;
pub mod actors;
pub mod uct;
pub mod search;
pub mod search_mod;
pub mod eval;
pub mod rule;
pub mod mcts_actor;
pub mod deal;
pub mod laws;
pub mod table;
