//! A sparse 32-bit byte-addressable memory for an instruction-set simulator.
//!
//! The address space is a three-level structure (directory, table, page) with
//! lazily allocated, zero-initialized 4 KiB pages.  All accesses are bounds
//! checked: reads and writes of unmapped addresses report a recoverable
//! `MissingMapping` fault, multi-byte operations are atomic (all-or-nothing),
//! and block copies behave as if staged through a temporary buffer.

pub mod args;
pub mod loader;
pub mod memory;
pub mod simulator;
