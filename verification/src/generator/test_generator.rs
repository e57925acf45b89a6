//! A fixed generator: a handful of identical polycube programs, all
//! requested at time zero.

use vstd::prelude::*;

use crate::generator::ProgramGenerator;
use crate::program::polycube::{Coordinate, Polycube};
use crate::program::{Program, ProgramFormat};

verus! {

/// The cells of the fixed test program.
pub open spec fn test_program_blocks() -> Seq<Coordinate> {
    seq![
        Coordinate { x: 0, y: 0, z: 0 },
        Coordinate { x: 0, y: 1, z: 0 },
        Coordinate { x: 0, y: 2, z: 0 },
        Coordinate { x: 0, y: 0, z: 1 },
        Coordinate { x: 0, y: 1, z: 1 },
        Coordinate { x: 0, y: 2, z: 1 },
        Coordinate { x: 1, y: 0, z: 1 },
        Coordinate { x: 1, y: 1, z: 1 },
        Coordinate { x: 1, y: 2, z: 1 },
        Coordinate { x: 2, y: 0, z: 1 },
        Coordinate { x: 2, y: 1, z: 1 },
        Coordinate { x: 2, y: 2, z: 1 },
        Coordinate { x: 0, y: 0, z: 2 },
        Coordinate { x: 0, y: 1, z: 2 },
        Coordinate { x: 0, y: 2, z: 2 },
        Coordinate { x: 0, y: 0, z: 3 },
        Coordinate { x: 0, y: 1, z: 3 },
        Coordinate { x: 0, y: 2, z: 3 },
        Coordinate { x: 1, y: 0, z: 3 },
        Coordinate { x: 1, y: 1, z: 3 },
        Coordinate { x: 1, y: 2, z: 3 },
        Coordinate { x: 2, y: 0, z: 3 },
        Coordinate { x: 2, y: 1, z: 3 },
        Coordinate { x: 2, y: 2, z: 3 },
    ]
}

pub struct TestGenerator;

impl TestGenerator {
    pub fn new() -> (r: Self)
        ensures
            true,
    {
        Self {  }
    }
}

impl ProgramGenerator for TestGenerator {
    /// Five copies of the fixed test polycube, all requested at time zero.
    fn generate(&self) -> (r: Vec<(u64, Program)>)
        ensures
            r@.len() == 5,
            forall|i: int|
                0 <= i < r@.len() ==> {
                    &&& (#[trigger] r@[i]).0 == 0
                    &&& r@[i].1.is_polycube_spec()
                    &&& r@[i].1.poly()@ == test_program_blocks()
                    &&& r@[i].1.wf()
                },
    {
        let mut out: Vec<(u64, Program)> = Vec::new();
        let mut i: usize = 0;
        while i < 5
            invariant
                0 <= i <= 5,
                out@.len() == i,
                forall|k: int|
                    0 <= k < i ==> {
                        &&& (#[trigger] out@[k]).0 == 0
                        &&& out@[k].1.is_polycube_spec()
                        &&& out@[k].1.poly()@ == test_program_blocks()
                        &&& out@[k].1.wf()
                    },
            decreases 5 - i,
        {
            let mut blocks: Vec<Coordinate> = Vec::new();
            blocks.push(Coordinate::new(0, 0, 0));
            blocks.push(Coordinate::new(0, 1, 0));
            blocks.push(Coordinate::new(0, 2, 0));
            blocks.push(Coordinate::new(0, 0, 1));
            blocks.push(Coordinate::new(0, 1, 1));
            blocks.push(Coordinate::new(0, 2, 1));
            blocks.push(Coordinate::new(1, 0, 1));
            blocks.push(Coordinate::new(1, 1, 1));
            blocks.push(Coordinate::new(1, 2, 1));
            blocks.push(Coordinate::new(2, 0, 1));
            blocks.push(Coordinate::new(2, 1, 1));
            blocks.push(Coordinate::new(2, 2, 1));
            blocks.push(Coordinate::new(0, 0, 2));
            blocks.push(Coordinate::new(0, 1, 2));
            blocks.push(Coordinate::new(0, 2, 2));
            blocks.push(Coordinate::new(0, 0, 3));
            blocks.push(Coordinate::new(0, 1, 3));
            blocks.push(Coordinate::new(0, 2, 3));
            blocks.push(Coordinate::new(1, 0, 3));
            blocks.push(Coordinate::new(1, 1, 3));
            blocks.push(Coordinate::new(1, 2, 3));
            blocks.push(Coordinate::new(2, 0, 3));
            blocks.push(Coordinate::new(2, 1, 3));
            blocks.push(Coordinate::new(2, 2, 3));
            proof {
                assert(blocks@ =~= test_program_blocks());
            }
            let poly = Polycube::new(blocks);
            let program = Program::new(ProgramFormat::Polycube(poly));
            out.push((0, program));
            i = i + 1;
        }
        out
    }
}

} // verus!
