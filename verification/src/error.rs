//! Errors that a simulation run can surface.

use vstd::prelude::*;

use crate::job::{Job, JobID};
use crate::scheduler::Schedule;

verus! {

/// A failure that aborts a simulation run.
#[derive(Debug)]
pub enum QMPError {
    /// A placement references an unknown or non-waiting job.
    InvalidJobID(JobID),
    /// A placement fails the non-overlap or in-range check.
    InvalidSchedule { job: Job, schedule: Schedule },
    /// A placement's `z` lies below the current program counter.
    ViolateTimingConstraint,
    /// The scheduler found no feasible placement, or met a program shape it
    /// does not support.
    SchedulingFailed,
}

impl QMPError {
    pub fn invalid_job_id(job_id: JobID) -> (r: QMPError)
        ensures
            r == QMPError::InvalidJobID(job_id),
    {
        QMPError::InvalidJobID(job_id)
    }

    pub fn invalid_schedule_error(job: Job, schedule: Schedule) -> (r: QMPError)
        ensures
            r == (QMPError::InvalidSchedule { job, schedule }),
    {
        QMPError::InvalidSchedule { job, schedule }
    }

    /// A short description of the error.
    pub fn message(&self) -> (r: String)
        ensures
            self is InvalidJobID ==> r@ == "invalid job ID specified"@,
            self is InvalidSchedule ==> r@ == "invalid schedule"@,
            self is ViolateTimingConstraint ==> r@ == "violate timing constraint"@,
            self is SchedulingFailed ==> r@ == "scheduling failed"@,
    {
        match self {
            QMPError::InvalidJobID(_) => "invalid job ID specified".to_string(),
            QMPError::InvalidSchedule { .. } => "invalid schedule".to_string(),
            QMPError::ViolateTimingConstraint => "violate timing constraint".to_string(),
            QMPError::SchedulingFailed => "scheduling failed".to_string(),
        }
    }
}

} // verus!
