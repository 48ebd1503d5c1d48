//! Verifier side of the ProtoGalaxy folding scheme over the BN256 scalar field:
//! the off-circuit polynomial engines, special-soundness checks, and an
//! in-circuit verifier whose assigned values are proved equal to their
//! off-circuit counterparts.
//!
//! Modelling choices:
//! - The field is fixed to the BN256 scalar field, on both sides: a value
//!   carried into the circuit keeps its value (the scalar-to-base
//!   reinterpretation is the identity).
//! - A region of the main gate is a log of assigned cells; an equality that
//!   the circuit would constrain is checked where it is assigned, and a
//!   mismatch is returned as an error.
//! - The random oracle is the user's `ROTrait`; every call the library makes
//!   on it goes through a `Transcript`, whose log the contracts state.
pub mod accumulator;
pub mod field;
pub mod folded_witness;
pub mod fourier;
pub mod lagrange;
pub mod main_gate;
pub mod plonk;
pub mod poly;
pub mod poly_context;
pub mod protogalaxy;
pub mod sps;
pub mod verify_chip;
