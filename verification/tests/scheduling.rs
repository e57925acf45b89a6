//! Tests for events, schedules, the environment, and the preprocessor.

use qmp_scheduler::config::{PreprocessorConfig, SchedulerConfig, SimulationConfig};
use qmp_scheduler::environment::Environment;
use qmp_scheduler::error::QMPError;
use qmp_scheduler::event::{Event, EventQueue};
use qmp_scheduler::preprocess::{ConvertToCuboid, Preprocessor};
use qmp_scheduler::program::polycube::{Coordinate, Polycube};
use qmp_scheduler::program::{Program, ProgramFormat};
use qmp_scheduler::scheduler::{apply_schedule, Schedule, SchedulerKind};

fn test_config(size_x: u32, size_y: u32) -> SimulationConfig {
    SimulationConfig {
        size_x,
        size_y,
        micro_sec_per_cycle: 100,
        no_output_program: false,
        enable_defrag: false,
        defrag_interval: Some(1000),
        preprocessor: PreprocessorConfig { processes: Vec::new(), num_cuboids: None },
        scheduler: SchedulerConfig {
            kind: SchedulerKind::Greedy,
            time_limit: Some(60),
            batch_size: Some(3),
        },
    }
}

#[test]
fn test_event_que_add() {
    let mut event_que = EventQueue::new();

    event_que.add_event(Event::request_job(0, 0));
    event_que.add_event(Event::start_scheduling(1));
    event_que.add_event(Event::request_job(1, 1));

    assert_eq!(event_que.next_event_time(), Some(0));
    assert_eq!(event_que.pop().unwrap(), Event::request_job(0, 0));
    assert_eq!(event_que.next_event_time(), Some(1));
    assert_eq!(event_que.pop().unwrap(), Event::request_job(1, 1));
    assert_eq!(event_que.next_event_time(), Some(1));
    assert_eq!(event_que.pop().unwrap(), Event::start_scheduling(1));
}

#[test]
fn test_apply_schedule() {
    let p = Program::new(ProgramFormat::Polycube(Polycube::new(vec![
        Coordinate::new(2, 1, 0),
        Coordinate::new(1, 2, 0),
    ])));
    let s = Schedule::new(1, 10, 3, 1, true);
    let scheduled = apply_schedule(&p, &s);
    let actual = scheduled.polycube().unwrap();
    let expected = Polycube::new(vec![Coordinate::new(2, 10, 3), Coordinate::new(1, 11, 3)]);
    assert_eq!(*actual, expected);
}

#[test]
fn test_environment_add_polycube() {
    let config = test_config(6, 6);
    let mut env = Environment::new(config);

    let p1 = Program::new(ProgramFormat::Polycube(Polycube::new(vec![
        Coordinate::new(0, 0, 0),
    ])));
    let p2 = Program::new(ProgramFormat::Polycube(Polycube::new(vec![
        Coordinate::new(1, 1, 1),
    ])));
    let p3 = Program::new(ProgramFormat::Polycube(Polycube::new(vec![
        Coordinate::new(0, 0, 0),
    ])));

    assert!(env.issue_program(&p1));
    assert!(env.issue_program(&p2));
    assert!(!env.issue_program(&p3));

    let expected = vec![p1, p2];
    assert_eq!(env.issued_programs(), &expected);
    assert!(env.validate());
    assert_eq!(env.end_pc(), 2);
}

#[test]
fn test_suspension_blocks_counter() {
    // a suspension at the current counter lets the clock run ahead while
    // the counter waits, and the counter catches up afterwards
    let mut env = Environment::new(test_config(2, 2));
    env.suspend_at(0, 5);
    env.advance_by(3);
    assert_eq!(env.current_time(), 3);
    assert_eq!(env.global_pc(), 0);
    env.advance_by(4);
    assert_eq!(env.current_time(), 7);
    assert_eq!(env.global_pc(), 2);
}

#[test]
fn test_suspend_merges_by_max() {
    // re-applying a suspension with an earlier deadline is a no-op
    let mut env = Environment::new(test_config(2, 2));
    env.suspend_at(1, 10);
    env.suspend_at(1, 4);
    env.advance_by(3);
    assert_eq!(env.global_pc(), 1);
    assert_eq!(env.current_time(), 3);
    env.advance_by(9);
    assert_eq!(env.current_time(), 12);
    assert_eq!(env.global_pc(), 3);
}

#[test]
fn test_remaining_cycles_counts_waits() {
    let mut env = Environment::new(test_config(2, 2));
    let p = Program::new(ProgramFormat::Polycube(Polycube::new(vec![
        Coordinate::new(0, 0, 0),
    ])));
    assert!(env.issue_program(&p));
    env.suspend_at(0, 4);
    assert_eq!(env.remaining_cycles(), 5);
}

#[test]
fn test_convert_to_cuboids() {
    let num_cuboids = 4;
    let blocks = (2..15).map(|z| Coordinate::new(0, 0, z)).collect();
    let poly = Program::new(ProgramFormat::Polycube(Polycube::new(blocks)));
    let converter = ConvertToCuboid::new(num_cuboids);
    let cuboids = converter.process(poly).cuboid().unwrap().clone();
    assert!(cuboids.len() == num_cuboids as usize);
    assert!(cuboids.iter().all(|c| c.size_z() == 3 || c.size_z() == 4));
}

#[test]
fn test_error_messages() {
    assert_eq!(
        QMPError::invalid_job_id(3).message(),
        "invalid job ID specified"
    );
    assert_eq!(
        QMPError::ViolateTimingConstraint.message(),
        "violate timing constraint"
    );
    assert_eq!(QMPError::SchedulingFailed.message(), "scheduling failed");
}
