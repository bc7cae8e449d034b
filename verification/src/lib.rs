//! Parity sets for collections of files: chunk hashing and Merkle addressing,
//! Reed-Solomon parity over stripes of chunks, the parity volume format, and
//! detection and repair of damaged chunks.
//!
//! Everything here works on values in memory. Reading and writing files,
//! locking and directory traversal belong to the caller.

pub mod capacity;
pub mod chunker;
pub mod compute;
pub mod damage;
pub mod encode;
pub mod exit_code;
pub mod hash;
pub mod index;
pub mod laws;
pub mod legacy;
pub mod localize;
pub mod manifest;
pub mod merkle;
pub mod order;
pub mod parity_audit;
pub mod path_safety;
pub mod placement;
pub mod progress;
pub mod repair;
pub mod repair_laws;
pub mod rs_codec;
pub mod text;
pub mod verify;
pub mod volume;
pub mod writer;
