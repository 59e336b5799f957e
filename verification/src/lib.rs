//! Verified cores of two processor-architecture tools: a cycle-level model
//! of an out-of-order RISC-V style core, and a scheduler that packs a loop
//! program into VLIW bundles.

pub mod simulator;
pub mod text;
pub mod scheduler;
