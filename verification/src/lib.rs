//! A deterministic, turn-based betting card game engine.
//!
//! The engine tracks a two-player Texas-hold'em-style match through dealing,
//! betting rounds, showdown and payout.  Cards are drawn from a 52-slot deck
//! by a seeded pseudo-random stream so that a match is reproducible from its
//! seed and its move sequence alone.  The hand resolver ranks a 7-card pool
//! by enumerating all 5-card subsets and classifying them.

pub mod cards;
pub mod deck;
pub mod errors;
pub mod flow;
pub mod labels;
pub mod laws;
pub mod moves;
pub mod resolver;
pub mod rng;
pub mod state;
