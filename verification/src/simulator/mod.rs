//! Cycle-level model of a four-wide out-of-order core with register
//! renaming, an integer queue, two-stage ALUs and precise exceptions.

pub mod types;
pub mod pipeline;
pub mod state;
pub mod parser;
pub mod conservation;
