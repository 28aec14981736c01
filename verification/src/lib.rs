//! N-queens by simulated annealing: a verified search core.
//!
//! A placement is a sorted sequence of distinct queens; the board generates
//! random placements and neighbours, scores them by the number of attacking
//! pairs, and runs the annealing loop.

pub mod board;
pub mod conflicts;
pub mod order;
pub mod placement;
pub mod queen;
pub mod random;
