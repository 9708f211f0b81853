//! A cycle-level simulator of a Tomasulo-style out-of-order pipeline with a
//! reorder buffer, together with the in-order executor it is checked against.

pub mod cpu;
pub mod generate;
pub mod parser;
pub mod text;
pub mod trace;
