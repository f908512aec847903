//! Relocation-aware diffing of relocatable object files.
//!
//! The library reads object files into plain values, cuts each section into
//! per-symbol slices, compares slices of two builds with relocated bytes
//! masked out, builds the symbol dependency graph of a module, and collects
//! the symbols that a change reaches through that graph. It also encodes the
//! trampolines of a stub object that forwards symbols to live addresses.

pub mod model;
pub mod reader;
pub mod slices;
pub mod compare;
pub mod graph;
pub mod walk;
pub mod diff;
pub mod snapshot;
pub mod stub;
pub mod forward;
pub mod mangle;
pub mod tls;
