//! The bookkeeping of a real-time particle simulation: a fixed-capacity pool
//! of live entries, a grid that narrows the search for colliding pairs, the
//! choice of a contact side, and the order and pace of a tick.
//!
//! The library never looks inside a particle. Whatever must be computed from
//! a particle's state is asked of a function that the caller hands in, so the
//! contracts say what happens to which slot for every answer such a function
//! can give.
use vstd::prelude::*;

pub mod boundary;
pub mod contact;
pub mod grid;
pub mod order;
pub mod pace;
pub mod pool;
pub mod retirement;
pub mod schedule;
