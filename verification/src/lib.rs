//! Decision logic of a small digit classifier: the arg-max rule over
//! double-precision activations, the shape rules of a one-hidden-layer
//! network, the ingestion of labelled pixel rows and the selection of
//! classes from a data set. Numbers with a fractional part never enter
//! this crate: activations travel as their IEEE 754 binary64 bit
//! patterns, pixels as the bytes they were read as.

pub mod dataset;
pub mod evaluation;
pub mod mnist;
pub mod pure_rust_network;
pub mod utils;
