//! Simulation configuration: fabric extent, time conversion, defragmentation
//! and scheduler settings. Loading from a file lives outside the library;
//! the values arrive here as plain fields.

use vstd::prelude::*;

use crate::preprocess::PreprocessKind;
use crate::scheduler::SchedulerKind;

verus! {

#[derive(Debug)]
pub struct SimulationConfig {
    /// Fabric extent along `x`; `z` is unbounded.
    pub size_x: u32,
    /// Fabric extent along `y`.
    pub size_y: u32,
    /// Wall-clock microseconds that one simulated cycle stands for.
    pub micro_sec_per_cycle: u64,
    /// Omit placed-program geometry in the result.
    pub no_output_program: bool,
    pub enable_defrag: bool,
    pub defrag_interval: Option<u64>,
    pub preprocessor: PreprocessorConfig,
    pub scheduler: SchedulerConfig,
}

#[derive(Debug, Clone, Copy)]
pub struct SchedulerConfig {
    pub kind: SchedulerKind,
    /// Solver wall-clock limit in seconds.
    pub time_limit: Option<u32>,
    pub batch_size: Option<u32>,
}

#[derive(Debug)]
pub struct PreprocessorConfig {
    pub processes: Vec<PreprocessKind>,
    pub num_cuboids: Option<u32>,
}

impl Clone for PreprocessorConfig {
    fn clone(&self) -> (r: Self)
        ensures
            r.processes@ == self.processes@,
            r.num_cuboids == self.num_cuboids,
    {
        let mut processes: Vec<PreprocessKind> = Vec::new();
        let mut i: usize = 0;
        while i < self.processes.len()
            invariant
                0 <= i <= self.processes@.len(),
                processes@ == self.processes@.take(i as int),
            decreases self.processes@.len() - i,
        {
            processes.push(self.processes[i]);
            proof {
                assert(processes@ =~= self.processes@.take(i as int + 1));
            }
            i = i + 1;
        }
        proof {
            assert(processes@ =~= self.processes@);
        }
        PreprocessorConfig { processes, num_cuboids: self.num_cuboids }
    }
}

impl Clone for SimulationConfig {
    fn clone(&self) -> (r: Self)
        ensures
            r.size_x == self.size_x,
            r.size_y == self.size_y,
            r.micro_sec_per_cycle == self.micro_sec_per_cycle,
            r.no_output_program == self.no_output_program,
            r.enable_defrag == self.enable_defrag,
            r.defrag_interval == self.defrag_interval,
            r.preprocessor.processes@ == self.preprocessor.processes@,
            r.preprocessor.num_cuboids == self.preprocessor.num_cuboids,
            r.scheduler == self.scheduler,
            r.wf() == self.wf(),
    {
        SimulationConfig {
            size_x: self.size_x,
            size_y: self.size_y,
            micro_sec_per_cycle: self.micro_sec_per_cycle,
            no_output_program: self.no_output_program,
            enable_defrag: self.enable_defrag,
            defrag_interval: self.defrag_interval,
            preprocessor: self.preprocessor.clone(),
            scheduler: self.scheduler,
        }
    }
}

impl SimulationConfig {
    /// The fabric extent fits the coordinate arithmetic: positive and small
    /// enough that positions inside it cannot overflow `i32`.
    pub open spec fn wf(&self) -> bool {
        &&& 0 < self.size_x <= 0x4000_0000
        &&& 0 < self.size_y <= 0x4000_0000
        &&& self.micro_sec_per_cycle >= 1
    }
}

} // verus!
