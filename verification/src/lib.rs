//! A generic, configurable Cyclic Redundancy Check (CRC) engine.
//!
//! The engine is a bit-serial implementation of binary polynomial division
//! (modulo-2 arithmetic) over an arbitrary byte sequence, parameterised by a
//! register width, a truncated generator polynomial, an initial remainder, a
//! final XOR mask, and two bit-reflection flags.

pub mod bitrev;
pub mod engine;
