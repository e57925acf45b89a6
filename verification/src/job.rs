//! Jobs: a requested program together with its scheduling lifecycle.

use vstd::prelude::*;

use crate::program::{Program, ProgramCounter};

verus! {

pub type JobID = u32;

#[derive(Debug, Clone, Copy, PartialEq, Eq, Structural)]
pub enum JobStatus {
    /// Requested, but not scheduled.
    Waiting,
    /// Scheduled, but not running.
    Scheduled,
    Running,
    Finished,
}

#[derive(Debug)]
pub struct Job {
    pub id: JobID,
    pub requested_time: u64,
    pub program: Program,
    /// The time when the execution of this job will start.
    pub start_time: Option<u64>,
    pub status: JobStatus,
}

impl Clone for Job {
    fn clone(&self) -> (r: Self)
        ensures
            r.id == self.id,
            r.requested_time == self.requested_time,
            crate::program::prog_equiv(r.program, self.program),
            r.start_time == self.start_time,
            r.status == self.status,
    {
        Job {
            id: self.id,
            requested_time: self.requested_time,
            program: self.program.clone(),
            start_time: self.start_time,
            status: self.status,
        }
    }
}

impl Job {
    pub fn new(id: JobID, requested_time: u64, program: Program) -> (r: Self)
        ensures
            r.id == id,
            r.requested_time == requested_time,
            r.program == program,
            r.start_time is None,
            r.status == JobStatus::Waiting,
    {
        Job { id, requested_time, program, start_time: None, status: JobStatus::Waiting }
    }

    pub fn start_time(&self) -> (r: Option<u64>)
        ensures
            r == self.start_time,
    {
        self.start_time
    }

    pub fn update_start_time(&mut self, stime: u64)
        ensures
            final(self).start_time == Some(stime),
            final(self).id == old(self).id,
            final(self).requested_time == old(self).requested_time,
            final(self).program == old(self).program,
            final(self).status == old(self).status,
    {
        self.start_time = Some(stime)
    }

    /// The burst time of the job's program: the length of its `z` extent in
    /// cycles.
    pub fn total_execution_cycle(&self) -> (r: ProgramCounter)
        requires
            self.program.wf(),
        ensures
            r == self.program.z2s() - self.program.z1s(),
    {
        self.program.burst_time()
    }

    pub fn status(&self) -> (r: &JobStatus)
        ensures
            r == self.status,
    {
        &self.status
    }

    pub fn update_status(&mut self, status: JobStatus)
        ensures
            final(self).status == status,
            final(self).id == old(self).id,
            final(self).requested_time == old(self).requested_time,
            final(self).program == old(self).program,
            final(self).start_time == old(self).start_time,
    {
        self.status = status;
    }
}

} // verus!
