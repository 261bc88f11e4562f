//! A transistor-level model of the SAP-2 computer.
//!
//! Every component is built from [`hardware::Pmos`] and
//! [`hardware::Nmos`] transistors, and every component carries a
//! contract that says what it drives onto its outputs and what it
//! remembers, floating lines and error cases included.

pub mod hardware;
pub mod utils;
pub mod gates;
pub mod mux;
pub mod decoder;
pub mod latches;
pub mod arithmetic;
pub mod alu_sap2;
pub mod memory;
pub mod ram;
pub mod counters;
pub mod control;
pub mod machine;
pub mod isa;
pub mod cpu_sap2;
pub mod assembler;

use vstd::prelude::*;

verus! {

/// Compile-time switch of the lossless fast paths, which skip
/// transistors that provably cannot conduct.
pub const FAST: bool = true;

} // verus!
