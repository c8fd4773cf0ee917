//! A flat, byte-addressable memory window for an emulated machine.

pub mod dram;

pub use dram::{DramError, DramView, DRAM};
