//! Deciders: each returns `true` only when it has proved that the machine never
//! halts, and `false` when it does not know.

pub mod cyclers;
pub mod translated_cyclers;
