//! Orbital-mechanics core for a 2D space-strategy simulation.
//!
//! The host process keeps each body's kinematic state (positions, velocities,
//! masses) in its own numeric representation and advances it with a
//! semi-implicit Euler step. Everything with real algorithmic structure —
//! the mass-ordered sphere-of-influence parent tree, the sibling (primary
//! influence) selection that culls the N-body sum, and the validation that
//! guards child creation — is decided here, over plain values, and verified.
//!
//! Physical magnitudes cross into this crate as *magnitude keys*: unsigned
//! integers whose order agrees with the order of the underlying physical
//! quantities (the host encodes its nonnegative scalars order-preservingly).
//! Where a rule needs sums or ratios rather than bare comparisons — the
//! sibling pull threshold — the host supplies fixed-point integers instead,
//! and the arithmetic here is exact.

pub mod body;
pub mod game_state;
pub mod hierarchy;
pub mod influence;
pub mod material;
pub mod orbital;
pub mod order;
pub mod recipe;
pub mod screens;
