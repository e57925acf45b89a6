//! The brute-force greedy scheduler: it keeps its own copy of the fabric
//! state and places each job at the first position, flip and rotation that
//! can be issued, scanning upwards along `z` from the current counter.

use vstd::prelude::*;

use crate::config::SimulationConfig;
use crate::environment::{in_range, Environment};
use crate::error::QMPError;
use crate::job::{Job, JobID};
use crate::program::Program;
use crate::scheduler::{
    apply_schedule, apply_schedule_spec, lemma_apply_spec_unique, program_fits,
    program_schedule_fits, Schedule,
};

verus! {

/// How many jobs one scheduling round takes from a queue of `len` jobs.
pub open spec fn batch_take(len: int, batch: Option<u32>) -> int {
    match batch {
        Some(b) => if len < b {
            len
        } else {
            b as int
        },
        None => len,
    }
}

/// The schedule places the program inside the fabric without meeting any
/// running program: the placed geometry fits the coordinate range and can be
/// issued.
pub open spec fn placement_feasible(env: Environment, p: Program, s: Schedule) -> bool {
    &&& program_schedule_fits(p, s)
    &&& exists|q: Program|
        #[trigger] apply_schedule_spec(p, s, q) && q.wf() && env.can_issue_spec(q)
}

pub struct GreedyScheduler {
    job_list: Vec<Job>,
    env: Environment,
    config: SimulationConfig,
}

impl GreedyScheduler {
    pub closed spec fn jobs(&self) -> Seq<Job> {
        self.job_list@
    }

    pub closed spec fn env_spec(&self) -> Environment {
        self.env
    }

    pub closed spec fn config_spec(&self) -> SimulationConfig {
        self.config
    }

    /// The scheduler's own fabric copy is consistent — its counter never
    /// moves and its issued programs stay pairwise non-overlapping — and
    /// every queued job carries a well-formed program.
    pub open spec fn wf(&self) -> bool {
        &&& self.env_spec().wf()
        &&& self.env_spec().pc_spec() == 0
        &&& self.env_spec().issued_disjoint()
        &&& self.config_spec().wf()
        &&& forall|i: int| 0 <= i < self.jobs().len() ==> (#[trigger] self.jobs()[i]).program.wf()
    }

    pub fn new(config: SimulationConfig) -> (r: Self)
        requires
            config.wf(),
        ensures
            r.wf(),
            r.jobs().len() == 0,
            r.config_spec().scheduler == config.scheduler,
    {
        let env = Environment::new(config.clone());
        Self { job_list: Vec::new(), env, config }
    }

    pub fn add_job(&mut self, job: Job)
        requires
            old(self).wf(),
            job.program.wf(),
        ensures
            final(self).wf(),
            final(self).jobs() == old(self).jobs().push(job),
            final(self).config_spec() == old(self).config_spec(),
            final(self).env_spec() == old(self).env_spec(),
    {
        self.job_list.push(job);
        proof {
            assert forall|i: int| 0 <= i < self.jobs().len() implies (
            #[trigger] self.jobs()[i]).program.wf() by {
                if i < old(self).jobs().len() {
                    assert(old(self).jobs()[i].program.wf());
                }
            }
        }
    }

    /// Take up to `batch_size` jobs from the front of the queue.
    fn take_jobs_by_batch_size(&mut self) -> (taken: Vec<Job>)
        requires
            old(self).wf(),
        ensures
            final(self).wf(),
            final(self).env_spec() == old(self).env_spec(),
            final(self).config_spec() == old(self).config_spec(),
            taken@.len() == batch_take(
                old(self).jobs().len() as int,
                old(self).config_spec().scheduler.batch_size,
            ),
            forall|i: int| 0 <= i < taken@.len() ==> #[trigger] taken@[i] == old(self).jobs()[i],
            final(self).jobs() == old(self).jobs().skip(taken@.len() as int),
    {
        let take_len: usize = match self.config.scheduler.batch_size {
            Some(batch_size) => {
                if self.job_list.len() < batch_size as usize {
                    self.job_list.len()
                } else {
                    batch_size as usize
                }
            },
            None => self.job_list.len(),
        };
        let mut taken: Vec<Job> = Vec::new();
        let ghost orig = self.job_list@;
        proof {
            assert(self.job_list@ =~= orig.skip(0));
        }
        let mut k: usize = 0;
        while k < take_len
            invariant
                0 <= k <= take_len,
                take_len <= orig.len(),
                orig == old(self).jobs(),
                self.env_spec() == old(self).env_spec(),
                self.config_spec() == old(self).config_spec(),
                taken@.len() == k,
                forall|i: int| 0 <= i < k ==> #[trigger] taken@[i] == orig[i],
                self.job_list@ == orig.skip(k as int),
            decreases take_len - k,
        {
            let j = self.job_list.remove(0);
            proof {
                assert(orig.skip(k as int)[0] == orig[k as int]);
                assert(self.job_list@ =~= orig.skip(k as int + 1));
            }
            taken.push(j);
            k = k + 1;
        }
        proof {
            assert forall|i: int| 0 <= i < self.jobs().len() implies (
            #[trigger] self.jobs()[i]).program.wf() by {
                assert(self.jobs()[i] == orig[i + take_len]);
                assert(old(self).jobs()[i + take_len].program.wf());
            }
        }
        taken
    }

    /// Try one concrete schedule: place the program if it fits and can be
    /// issued into the scheduler's fabric copy.
    #[verifier::spinoff_prover]
    #[verifier::rlimit(100)]
    fn try_place_one(&mut self, job: &Job, schedule: Schedule) -> (r: bool)
        requires
            old(self).wf(),
            job.program.wf(),
            0 <= schedule.rotate < 4,
        ensures
            final(self).wf(),
            final(self).config_spec() == old(self).config_spec(),
            final(self).jobs() == old(self).jobs(),
            r ==> exists|q: Program|
                {
                    &&& #[trigger] apply_schedule_spec(job.program, schedule, q)
                    &&& q.wf()
                    &&& old(self).env_spec().can_issue_spec(q)
                    &&& final(self).env_spec().issued().len() == old(
                        self,
                    ).env_spec().issued().len() + 1
                    &&& crate::program::prog_equiv(final(self).env_spec().issued().last(), q)
                },
            !r ==> *final(self) == *old(self) && !placement_feasible(
                old(self).env_spec(),
                job.program,
                schedule,
            ),
    {
        let ghost env0 = self.env_spec();
        let ghost prog = job.program;
        if program_fits(&job.program, &schedule) {
            let program = apply_schedule(&job.program, &schedule);
            if self.env.issue_program(&program) {
                proof {
                    let ghost placed_g = program;
                    Environment::lemma_in_range_z1_nonneg(
                        placed_g,
                        env0.size_x_spec(),
                        env0.size_y_spec(),
                    );
                    assert(self.env_spec().issued().last() == self.env_spec().issued()[
                        env0.issued().len() as int
                    ]);
                }
                return true;
            }
            proof {
                assert forall|q: Program|
                    #[trigger] apply_schedule_spec(prog, schedule, q) && q.wf() implies !env0.can_issue_spec(
                    q,
                ) by {
                    lemma_apply_spec_unique(prog, schedule, q, program);
                    env0.lemma_can_issue_equiv(q, program);
                }
                assert(!placement_feasible(env0, prog, schedule));
            }
            false
        } else {
            proof {
                assert(!placement_feasible(env0, prog, schedule));
            }
            false
        }
    }

    /// Try both flips and the three quarter-turns at one position; on
    /// success the placed program has been issued into the scheduler's
    /// fabric copy, and on failure nothing at this position is feasible.
    #[verifier::spinoff_prover]
    #[verifier::rlimit(100)]
    fn try_place_cell(&mut self, job: &Job, dx: u32, dy: u32, dz: i32) -> (r: Option<Schedule>)
        requires
            old(self).wf(),
            job.program.wf(),
        ensures
            final(self).wf(),
            final(self).config_spec() == old(self).config_spec(),
            final(self).jobs() == old(self).jobs(),
            r matches Some(s) ==> {
                &&& 0 <= s.rotate < 4 && s.z == dz
                &&& exists|q: Program|
                    {
                        &&& #[trigger] apply_schedule_spec(job.program, s, q)
                        &&& q.wf()
                        &&& old(self).env_spec().can_issue_spec(q)
                        &&& final(self).env_spec().issued().len() == old(
                            self,
                        ).env_spec().issued().len() + 1
                        &&& crate::program::prog_equiv(final(self).env_spec().issued().last(), q)
                    }
            },
            r is None ==> final(self).env_spec() == old(self).env_spec() && forall|
                f: bool,
                rot: int,
            |
                0 <= rot < 3 ==> !(#[trigger] placement_feasible(
                    old(self).env_spec(),
                    job.program,
                    Schedule { x: dx as i32, y: dy as i32, z: dz, rotate: rot as i32, flip: f },
                )),
    {
        let ghost env0 = self.env_spec();
        let ghost prog = job.program;
        let mut f: u32 = 0;
        while f < 2
            invariant
                self.wf(),
                job.program.wf(),
                prog == job.program,
                self.config_spec() == old(self).config_spec(),
                self.jobs() == old(self).jobs(),
                self.env_spec() == env0,
                env0 == old(self).env_spec(),
                0 <= f <= 2,
                forall|f2: bool, rot2: int|
                    ((f2 == false && f > 0) || (f2 == true && f > 1)) && 0 <= rot2 < 3 ==> !(
                    #[trigger] placement_feasible(
                        env0,
                        prog,
                        Schedule {
                            x: dx as i32,
                            y: dy as i32,
                            z: dz,
                            rotate: rot2 as i32,
                            flip: f2,
                        },
                    )),
            decreases 2 - f,
        {
            let flip = f == 1;
            let mut rot: i32 = 0;
            while rot < 3
                invariant
                    self.wf(),
                    job.program.wf(),
                    prog == job.program,
                    self.config_spec() == old(self).config_spec(),
                    self.jobs() == old(self).jobs(),
                    self.env_spec() == env0,
                    env0 == old(self).env_spec(),
                    0 <= rot <= 3,
                    flip == (f == 1),
                    forall|rot2: int|
                        0 <= rot2 < rot ==> !(#[trigger] placement_feasible(
                            env0,
                            prog,
                            Schedule {
                                x: dx as i32,
                                y: dy as i32,
                                z: dz,
                                rotate: rot2 as i32,
                                flip: flip,
                            },
                        )),
                decreases 3 - rot,
            {
                let schedule = Schedule::new(dx as i32, dy as i32, dz, rot, flip);
                if self.try_place_one(job, schedule) {
                    proof {
                        assert(self.env_spec().issued().len() == env0.issued().len() + 1);
                    }
                    return Some(schedule);
                }
                rot = rot + 1;
            }
            f = f + 1;
        }
        None
    }

    /// Try every position, flip and rotation at height `dz` in scan order;
    /// on success the placed program has been issued into the scheduler's
    /// fabric copy, and on failure nothing at this height is feasible.
    #[verifier::spinoff_prover]
    #[verifier::rlimit(100)]
    fn try_place_at(&mut self, job: &Job, dz: i32) -> (r: Option<Schedule>)
        requires
            old(self).wf(),
            job.program.wf(),
        ensures
            final(self).wf(),
            final(self).config_spec() == old(self).config_spec(),
            final(self).jobs() == old(self).jobs(),
            r matches Some(s) ==> {
                &&& 0 <= s.rotate < 4 && s.z == dz
                &&& exists|q: Program|
                    {
                        &&& #[trigger] apply_schedule_spec(job.program, s, q)
                        &&& q.wf()
                        &&& old(self).env_spec().can_issue_spec(q)
                        &&& final(self).env_spec().issued().len() == old(
                            self,
                        ).env_spec().issued().len() + 1
                        &&& crate::program::prog_equiv(final(self).env_spec().issued().last(), q)
                    }
            },
            r is None ==> final(self).env_spec() == old(self).env_spec() && forall|
                dx: int,
                dy: int,
                f: bool,
                rot: int,
            |
                0 <= dx < old(self).config_spec().size_x && 0 <= dy < old(
                    self,
                ).config_spec().size_y && 0 <= rot < 3 ==> !(#[trigger] placement_feasible(
                    old(self).env_spec(),
                    job.program,
                    Schedule {
                        x: dx as i32,
                        y: dy as i32,
                        z: dz,
                        rotate: rot as i32,
                        flip: f,
                    },
                )),
    {
        let size_x = self.config.size_x;
        let size_y = self.config.size_y;
        let ghost env0 = self.env_spec();
        let ghost prog = job.program;
        let mut dx: u32 = 0;
        while dx < size_x
            invariant
                self.wf(),
                job.program.wf(),
                prog == job.program,
                size_x == self.config_spec().size_x,
                size_y == self.config_spec().size_y,
                self.config_spec() == old(self).config_spec(),
                self.jobs() == old(self).jobs(),
                self.env_spec() == env0,
                env0 == old(self).env_spec(),
                forall|dx2: int, dy2: int, f2: bool, rot2: int|
                    0 <= dx2 < dx && 0 <= dy2 < size_y && 0 <= rot2 < 3 ==> !(
                    #[trigger] placement_feasible(
                        env0,
                        prog,
                        Schedule {
                            x: dx2 as i32,
                            y: dy2 as i32,
                            z: dz,
                            rotate: rot2 as i32,
                            flip: f2,
                        },
                    )),
            decreases size_x - dx,
        {
            let mut dy: u32 = 0;
            while dy < size_y
                invariant
                    self.wf(),
                    job.program.wf(),
                    prog == job.program,
                    size_x == self.config_spec().size_x,
                    size_y == self.config_spec().size_y,
                    self.config_spec() == old(self).config_spec(),
                    self.jobs() == old(self).jobs(),
                    self.env_spec() == env0,
                    env0 == old(self).env_spec(),
                    dx < size_x,
                    forall|dx2: int, dy2: int, f2: bool, rot2: int|
                        0 <= dx2 < dx && 0 <= dy2 < size_y && 0 <= rot2 < 3 ==> !(
                        #[trigger] placement_feasible(
                            env0,
                            prog,
                            Schedule {
                                x: dx2 as i32,
                                y: dy2 as i32,
                                z: dz,
                                rotate: rot2 as i32,
                                flip: f2,
                            },
                        )),
                    forall|dy2: int, f2: bool, rot2: int|
                        0 <= dy2 < dy && 0 <= rot2 < 3 ==> !(#[trigger] placement_feasible(
                            env0,
                            prog,
                            Schedule {
                                x: dx as i32,
                                y: dy2 as i32,
                                z: dz,
                                rotate: rot2 as i32,
                                flip: f2,
                            },
                        )),
                decreases size_y - dy,
            {
                let r = self.try_place_cell(job, dx, dy, dz);
                if r.is_some() {
                    return r;
                }
                dy = dy + 1;
            }
            dx = dx + 1;
        }
        None
    }

    /// Place up to one batch of queued jobs: each job is placed at the first
    /// feasible height scanning upwards from the passed fabric's counter,
    /// and within a height at the first feasible position, flip and rotation
    /// in scan order. Returns the placements in job order; an error means
    /// some taken job had no feasible placement anywhere up to one layer past
    /// the scheduler's own current work.
    #[verifier::spinoff_prover]
    #[verifier::rlimit(100)]
    pub fn run(&mut self, env: &Environment) -> (r: Result<Vec<(JobID, Schedule)>, QMPError>)
        requires
            old(self).wf(),
            env.wf(),
        ensures
            final(self).wf(),
            final(self).config_spec() == old(self).config_spec(),
            r matches Ok(v) ==> {
                &&& v@.len() == batch_take(
                    old(self).jobs().len() as int,
                    old(self).config_spec().scheduler.batch_size,
                )
                &&& forall|k: int|
                    0 <= k < v@.len() ==> (#[trigger] v@[k]).0 == old(self).jobs()[k].id && 0 <= v@[k].1.rotate
                        < 4 && v@[k].1.z >= env.pc_spec()
                &&& final(self).jobs() == old(self).jobs().skip(v@.len() as int)
                &&& final(self).env_spec().issued().len() == old(self).env_spec().issued().len()
                    + v@.len()
            },
            r is Err ==> r matches Err(QMPError::SchedulingFailed),
    {
        let jobs = self.take_jobs_by_batch_size();
        let ghost taken = jobs@;
        let ghost base_issued = self.env_spec().issued().len();
        let mut res: Vec<(JobID, Schedule)> = Vec::new();
        let mut ji: usize = 0;
        while ji < jobs.len()
            invariant
                0 <= ji <= jobs@.len(),
                jobs@ == taken,
                env.wf(),
                self.wf(),
                self.config_spec() == old(self).config_spec(),
                self.jobs() == old(self).jobs().skip(taken.len() as int),
                taken.len() == batch_take(
                    old(self).jobs().len() as int,
                    old(self).config_spec().scheduler.batch_size,
                ),
                forall|i: int| 0 <= i < taken.len() ==> #[trigger] taken[i] == old(self).jobs()[i],
                forall|i: int| 0 <= i < taken.len() ==> (#[trigger] taken[i]).program.wf(),
                res@.len() == ji,
                forall|k: int|
                    0 <= k < ji ==> (#[trigger] res@[k]).0 == taken[k].id && 0 <= res@[k].1.rotate
                        < 4 && res@[k].1.z >= env.pc_spec(),
                self.env_spec().issued().len() == base_issued + ji,
            decreases jobs@.len() - ji,
        {
            let job = &jobs[ji];
            let start_dz: u64 = env.global_pc();
            let own_end: u64 = self.env.end_pc();
            let endb: u64 = if own_end > start_dz {
                own_end
            } else {
                start_dz
            };
            if endb >= i32::MAX as u64 {
                return Err(QMPError::SchedulingFailed);
            }
            let ghost step_issued = self.env_spec().issued().len();
            let mut dz: u64 = start_dz;
            let mut placed: Option<Schedule> = None;
            while dz <= endb && placed.is_none()
                invariant
                    start_dz <= dz <= endb + 1,
                    endb < i32::MAX,
                    env.wf(),
                    self.wf(),
                    job.program.wf(),
                    self.config_spec() == old(self).config_spec(),
                    self.jobs() == old(self).jobs().skip(taken.len() as int),
                    placed matches Some(s) ==> 0 <= s.rotate < 4 && s.z >= start_dz,
                    placed is Some ==> self.env_spec().issued().len() == step_issued + 1,
                    placed is None ==> self.env_spec().issued().len() == step_issued,
                decreases (if placed is Some {
                    0int
                } else {
                    1int
                }), endb + 1 - dz,
            {
                placed = self.try_place_at(job, dz as i32);
                if placed.is_none() {
                    dz = dz + 1;
                }
            }
            match placed {
                Some(schedule) => {
                    res.push((job.id, schedule));
                    proof {
                        assert(res@[ji as int].0 == taken[ji as int].id);
                        assert(schedule.z >= start_dz);
                    }
                },
                None => {
                    return Err(QMPError::SchedulingFailed);
                },
            }
            ji = ji + 1;
        }
        Ok(res)
    }
}

} // verus!
