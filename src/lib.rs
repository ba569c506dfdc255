//! Deciders that prove 5-state, 2-symbol Turing machines never halt: a simple
//! cycler detector and a translated cycler detector, with the tape simulator they
//! drive and the decoding of the packed machine database.

pub mod db;
pub mod deciders;
pub mod machine;
