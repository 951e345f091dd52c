//! The exact core of a probe into the geometry of the Collatz map.
//!
//! Numbers, digits, orbits, training data, batches, rankings and texts are computed here. What a
//! numeric backend computes in floating point is written down here as formulas ([`expr`]): the
//! places of the virtual chip ([`chip`]), the autoencoder ([`network`]) and its training
//! objective ([`loss`]). [`semantics`] says what a formula means in exact arithmetic, and
//! [`shapes`] which formulas fit together; [`circle`], [`model_laws`], [`network_laws`] and
//! [`loss_bounds`] prove what the formulas promise.

pub mod batches;
pub mod bits;
pub mod chip;
pub mod circle;
pub mod collatz;
pub mod dataset;
pub mod draws;
pub mod expr;
pub mod influence;
pub mod loss;
pub mod loss_bounds;
pub mod model_laws;
pub mod network;
pub mod network_laws;
pub mod random;
pub mod reals;
pub mod report;
pub mod semantics;
pub mod shapes;
pub mod text;
pub mod totals;
pub mod training;
