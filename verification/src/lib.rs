//! Merge several directory trees ("packs") into one output tree.
//!
//! The library holds the merge core: building the union index of relative
//! paths across packs, classifying each path as unambiguous or conflicting by
//! content digest, applying the resolution policy, and planning the copies
//! that materialize the output tree. Directory traversal, file reads and the
//! interactive prompt are left to the surrounding program, which hands the
//! library plain values.

pub mod bytes;
pub mod classify;
pub mod hashing;
pub mod hexcode;
pub mod index;
pub mod laws;
pub mod plan;
pub mod resolve;
