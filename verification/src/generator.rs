//! Program generators: producers of request times and programs for a
//! simulation run.

pub mod test_generator;

pub use test_generator::TestGenerator;

use vstd::prelude::*;

use crate::program::Program;

verus! {

#[derive(Debug, Clone, Copy, PartialEq, Eq, Structural)]
pub enum GeneratorKind {
    Test,
}

pub trait ProgramGenerator {
    /// Generate all programs together with their request times.
    fn generate(&self) -> Vec<(u64, Program)>;
}

} // verus!
