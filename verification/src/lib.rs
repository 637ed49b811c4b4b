//! A sparse state simulator for quantum programs.
//!
//! The simulator is [`sim::QuantumSim`]. It keeps the amplitudes that are not
//! zero in a hash map ([`state`]), knows the qubits by identifiers ([`ids`]),
//! and puts off gates that it can carry past later ones.
//!
//! What an operation does is a relation between the [`model`] of the simulation
//! before and after it, given in [`steps`]. The numbers in these relations are
//! whatever the arithmetic of [`arith`] gave, so they hold for floating point.
//!
//! The laws come in several kinds. Those of [`flushing`], [`bookkeeping`] and
//! [`labels`] hold in any arithmetic. The others say what the operations mean
//! where nothing is rounded, which is what [`reading::Reading::exact`] stands
//! for: what is queued and what is not then makes up one state ([`logical`]), on
//! which each gate acts by its matrix ([`laws`], [`controlled_laws`]) and which
//! gates that undo each other give back ([`restoring`], [`amplitudes`]), from
//! which probabilities and outcomes follow ([`measuring`]), which stays
//! normalized ([`normalization`]), and which a dump shows ([`readout`]). No
//! entry of the sparse state ever stands for zero ([`sparsity`],
//! [`operations`]).
//!
//! Where the arithmetic rounds ([`rounding`]), gates, probabilities and
//! measurements do the same but for errors of a stated size ([`turns`],
//! [`rounded_laws`], [`rounded_measuring`]). In any arithmetic, queued gates do
//! what they would have done at once ([`carrying`]), what only moves amplitudes
//! changes none ([`moving`]), and the text of a dump tells the state
//! ([`texts`]). What controls and parities are is said in [`meanings`].
pub mod amplitudes;
pub mod applied;
pub mod arith;
pub mod bits;
pub mod bookkeeping;
pub mod carrying;
pub mod controlled_laws;
pub mod controls;
pub mod dump;
pub mod errors;
pub mod exact;
pub mod flushing;
pub mod fxmap;
pub mod gates;
pub mod ids;
pub mod labels;
pub mod laws;
pub mod logical;
pub mod matrix;
pub mod meanings;
pub mod measuring;
pub mod model;
pub mod moving;
pub mod normalization;
pub mod norms;
pub mod operations;
pub mod reading;
pub mod readout;
pub mod restoring;
pub mod rounded_laws;
pub mod rounded_measuring;
pub mod rounding;
pub mod sim;
pub mod sparsity;
pub mod state;
pub mod steps;
pub mod texts;
pub mod totals;
pub mod turns;
