//! Schema compiler and wire layer of a distributed-object game-networking
//! protocol.
//!
//! The crate covers three pieces: a recursive-descent parser that turns a
//! token stream into a schema tree (including a Python-import expansion
//! algorithm), a legacy-compatible 32-bit hash generator fed by an
//! incremental prime sieve, and a bounds-checked, little-endian binary
//! message builder (`Datagram`).

pub mod datagram;
pub mod dcfile;
pub mod dclexer;
pub mod dcparser;
pub mod hashgen;
pub mod primes;
