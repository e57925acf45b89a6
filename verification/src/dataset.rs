//! A dataset: the programs and the job requests that reference them.
//! Loading from a file lives outside the library; the values arrive here as
//! plain vectors.

use vstd::prelude::*;

use crate::program::Program;

verus! {

#[derive(Debug)]
pub struct Dataset {
    programs: Vec<Program>,
    job_requests: Vec<(u64, usize)>,
}

impl Dataset {
    pub closed spec fn programs_spec(&self) -> Seq<Program> {
        self.programs@
    }

    pub closed spec fn requests_spec(&self) -> Seq<(u64, usize)> {
        self.job_requests@
    }

    /// Every request names an existing program.
    pub open spec fn wf(&self) -> bool {
        forall|i: int|
            0 <= i < self.requests_spec().len() ==> (#[trigger] self.requests_spec()[i]).1
                < self.programs_spec().len()
    }

    pub fn new(programs: Vec<Program>, job_requests: Vec<(u64, usize)>) -> (r: Dataset)
        requires
            forall|i: int|
                0 <= i < job_requests@.len() ==> (#[trigger] job_requests@[i]).1 < programs@.len(),
        ensures
            r.programs_spec() == programs@,
            r.requests_spec() == job_requests@,
            r.wf(),
    {
        Dataset { programs, job_requests }
    }

    pub fn get_request(&self, id: usize) -> (r: (u64, &Program))
        requires
            self.wf(),
            id < self.requests_spec().len(),
        ensures
            r.0 == self.requests_spec()[id as int].0,
            *r.1 == self.programs_spec()[self.requests_spec()[id as int].1 as int],
    {
        let (time, program_id) = self.job_requests[id];
        (time, &self.programs[program_id])
    }

    pub fn num_requests(&self) -> (r: usize)
        ensures
            r == self.requests_spec().len(),
    {
        self.job_requests.len()
    }

    /// All requests, each paired with its program.
    pub fn requests(&self) -> (r: Vec<(u64, &Program)>)
        requires
            self.wf(),
        ensures
            r@.len() == self.requests_spec().len(),
            forall|i: int|
                0 <= i < r@.len() ==> {
                    &&& (#[trigger] r@[i]).0 == self.requests_spec()[i].0
                    &&& *r@[i].1 == self.programs_spec()[self.requests_spec()[i].1 as int]
                },
    {
        let mut out: Vec<(u64, &Program)> = Vec::new();
        let mut i: usize = 0;
        while i < self.job_requests.len()
            invariant
                0 <= i <= self.requests_spec().len(),
                self.wf(),
                out@.len() == i,
                forall|j: int|
                    0 <= j < i ==> {
                        &&& (#[trigger] out@[j]).0 == self.requests_spec()[j].0
                        &&& *out@[j].1 == self.programs_spec()[self.requests_spec()[j].1 as int]
                    },
            decreases self.requests_spec().len() - i,
        {
            let (t, id) = self.job_requests[i];
            out.push((t, &self.programs[id]));
            i = i + 1;
        }
        out
    }
}

} // verus!
