//! A 2D ball physics core on fixed-point integers: gravity, container
//! bounces, a bucket grid for the broad phase and pairwise overlap
//! correction, stepped in a fixed number of sub-steps per frame.
//!
//! Lengths are held in ticks (`SCALE` ticks per unit), velocities in ticks
//! per second, times in milliseconds and elasticity in thousandths.

use vstd::prelude::*;

pub mod body;
pub mod boundary;
pub mod collision;
pub mod grid;
pub mod integrate;
pub mod pointer;
pub mod random;
pub mod simulation;
pub mod spawn;
pub mod two_body;
