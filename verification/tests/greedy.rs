//! Placement scenarios for the greedy scheduler.

use qmp_scheduler::config::{PreprocessorConfig, SchedulerConfig, SimulationConfig};
use qmp_scheduler::environment::Environment;
use qmp_scheduler::job::Job;
use qmp_scheduler::program::polycube::{Coordinate, Polycube};
use qmp_scheduler::program::{Cuboid, Program, ProgramFormat};
use qmp_scheduler::scheduler::{GreedyScheduler, Schedule, SchedulerKind};

fn config(size_x: u32, size_y: u32) -> SimulationConfig {
    SimulationConfig {
        size_x,
        size_y,
        micro_sec_per_cycle: 100,
        no_output_program: false,
        enable_defrag: false,
        defrag_interval: None,
        preprocessor: PreprocessorConfig { processes: Vec::new(), num_cuboids: None },
        scheduler: SchedulerConfig { kind: SchedulerKind::Greedy, time_limit: None, batch_size: None },
    }
}

fn unit_cuboid_program() -> Program {
    Program::new(ProgramFormat::Cuboid(vec![Cuboid::new(
        Coordinate::new(0, 0, 0),
        1,
        1,
        1,
    )]))
}

#[test]
fn test_greedy_single_polycube() {
    // one three-cell polycube on a 3x3 fabric lands at the origin
    let cfg = config(3, 3);
    let env = Environment::new(config(3, 3));
    let mut sched = GreedyScheduler::new(cfg);
    let program = Program::new(ProgramFormat::Polycube(Polycube::new(vec![
        Coordinate::new(0, 0, 0),
        Coordinate::new(0, 1, 0),
        Coordinate::new(1, 0, 0),
    ])));
    sched.add_job(Job::new(0, 0, program));
    let placements = sched.run(&env).unwrap();
    assert_eq!(placements.len(), 1);
    assert_eq!(placements[0].0, 0);
    assert_eq!(placements[0].1, Schedule::new(0, 0, 0, 0, false));
}

#[test]
fn test_greedy_two_disjoint_cubes() {
    // two unit cubes on a 2x2 fabric share the z = 0 layer
    let cfg = config(2, 2);
    let env = Environment::new(config(2, 2));
    let mut sched = GreedyScheduler::new(cfg);
    sched.add_job(Job::new(0, 0, unit_cuboid_program()));
    sched.add_job(Job::new(1, 0, unit_cuboid_program()));
    let placements = sched.run(&env).unwrap();
    assert_eq!(placements.len(), 2);
    assert_eq!(placements[0].1.z, 0);
    assert_eq!(placements[1].1.z, 0);
    let second = (placements[1].1.x, placements[1].1.y);
    assert!(second == (0, 1) || second == (1, 0));
}

#[test]
fn test_greedy_overflow_stacks() {
    // three unit cubes on a 1x1 fabric stack at z = 0, 1, 2
    let cfg = config(1, 1);
    let env = Environment::new(config(1, 1));
    let mut sched = GreedyScheduler::new(cfg);
    sched.add_job(Job::new(0, 0, unit_cuboid_program()));
    sched.add_job(Job::new(1, 0, unit_cuboid_program()));
    sched.add_job(Job::new(2, 0, unit_cuboid_program()));
    let placements = sched.run(&env).unwrap();
    assert_eq!(placements.len(), 3);
    let mut zs: Vec<i32> = placements.iter().map(|p| p.1.z).collect();
    zs.sort();
    assert_eq!(zs, vec![0, 1, 2]);
}
