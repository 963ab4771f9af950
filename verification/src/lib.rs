//! A deterministic 2-D N-body gravity simulator.
//!
//! Point masses attract each other under softened Newtonian gravity.  The
//! acceleration field is approximated with a Barnes-Hut quad-tree, the state
//! is advanced either by forward Euler or by classical 4th-order Runge-Kutta,
//! and close bodies can be merged mass- and momentum-conservingly.
//!
//! All physical quantities are fixed-point numbers: an `i64` holding the
//! quantity times [`fixed::SCALE`].  Every arithmetic step is exactly
//! specified, so the whole pipeline is reproducible bit for bit.

pub mod fixed;
pub mod gravity_calc;
pub mod grid;
pub mod grid_diff;
pub mod mass;
pub mod op_alias;
pub mod solver;
pub mod state;
pub mod tree;
pub mod universe;
pub mod vector;
