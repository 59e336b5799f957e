//! Scheduler for a five-slot VLIW machine (two ALUs, a multiplier, a
//! memory unit and a branch unit): dependency analysis, as-soon-as-possible
//! list scheduling of a loop program, register allocation and output.

pub mod ir;
pub mod parser;
pub mod deps;
pub mod schedule_simple;
pub mod alloc_b;
pub mod schedule_pip;
pub mod alloc_r;
pub mod prepare_loop;
pub mod emit;
pub mod roundtrip;
