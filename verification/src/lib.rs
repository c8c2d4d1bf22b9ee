//! Verified core of a quantum statevector simulator.
pub mod layout;
pub mod circuits;
pub mod state;
pub mod backend;
pub mod gate;
pub mod circuit;
pub mod fusion;
pub mod compose;
pub mod sample;
