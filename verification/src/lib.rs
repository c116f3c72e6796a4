//! Exploration of the reachable states of a resource-trading puzzle.
//!
//! A [`basket::Candies`] value records how many of each of five resource
//! kinds are held.  A [`basket::Trade`] exchanges one basket amount for
//! another.  [`works::CandyWorks`] enumerates every distinct basket
//! reachable from a starting basket by applying trades, subject to a cap
//! on the total resource count, and answers queries about the explored
//! state space.

pub mod basket;
mod bound;
pub mod works;
