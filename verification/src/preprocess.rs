//! Preprocessors transform dataset programs before simulation.

pub mod convert_to_cuboid;

pub use convert_to_cuboid::ConvertToCuboid;

use vstd::prelude::*;

use crate::program::Program;

verus! {

#[derive(Debug, Clone, Copy, PartialEq, Eq, Structural)]
pub enum PreprocessKind {
    ConvertToCuboid,
}

pub trait Preprocessor {
    /// What a program must satisfy before this preprocessor may run on it.
    spec fn process_requires(&self, program: &Program) -> bool;

    /// What the transformed program guarantees.
    spec fn process_ensures(&self, program: &Program, r: &Program) -> bool;

    fn process(&self, program: Program) -> (r: Program)
        requires
            self.process_requires(&program),
        ensures
            self.process_ensures(&program, &r),
    ;
}

} // verus!
