//! A verified booster-draft engine for a trading-card game.
//!
//! A user configures which card sets to draft and how many packs of each,
//! then repeatedly opens virtual packs, picks a fixed number of cards from
//! each, and accumulates a pool sorted for deck building, finally exporting
//! the pool as a plain list.

use vstd::prelude::*;

pub mod catalog;
pub mod deck;
pub mod errors;
pub mod generator;
pub mod names;
pub mod numfmt;
pub mod rng;
pub mod session;

verus! {

/// Number of packs opened over one full draft session, by default.
pub const TOTAL_PACKS: usize = 18;

/// Number of cards picked from each pack before the session advances, by default.
pub const PICKS_PER_PACK: usize = 2;

/// Uncommon cards dealt into every pack.
pub const UNCOMMONS_PER_PACK: usize = 3;

/// Common cards dealt into every pack.
pub const COMMONS_PER_PACK: usize = 10;

/// The rare slot is promoted to a mythic draw one time in this many.
pub const MYTHIC_PROMOTION_ODDS: usize = 8;

} // verus!
