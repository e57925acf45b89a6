//! Tests for the geometry types: polycubes, cuboids, and cutting.

use qmp_scheduler::program::polycube::{Coordinate, Polycube};
use qmp_scheduler::environment::drop_programs;
use qmp_scheduler::program::{cut_program_at_z, Cuboid, Program, ProgramFormat};

#[test]
fn test_polycube_new() {
    let p = Polycube::new(vec![Coordinate::new(0, 0, 0), Coordinate::new(0, 1, 0)]);
    assert_eq!(
        p.blocks(),
        &vec![Coordinate::new(0, 0, 0), Coordinate::new(0, 1, 0)]
    );
}

#[test]
fn polycube_test_polycube_new() {
    let p = Polycube::new(vec![Coordinate::new(0, 0, 0), Coordinate::new(0, 1, 0)]);
    assert_eq!(
        p.blocks(),
        &vec![Coordinate::new(0, 0, 0), Coordinate::new(0, 1, 0)]
    );
}

#[test]
fn test_create_cuboid_from_polycube() {
    let p = Polycube::new(vec![Coordinate::new(1, 2, 3), Coordinate::new(2, 0, 1)]);
    let cuboid = Cuboid::from(&p);
    assert_eq!(*cuboid.pos(), Coordinate::new(1, 0, 1));
    assert_eq!(cuboid.size_x(), 2);
    assert_eq!(cuboid.size_y(), 3);
    assert_eq!(cuboid.size_z(), 3);
    assert_eq!(cuboid.original().cloned(), None);
}

#[test]
fn test_cut_program_at_z() {
    let c1 = Cuboid::new(Coordinate::new(0, 0, 0), 1, 1, 2);
    let c2 = Cuboid::new(Coordinate::new(0, 0, 2), 1, 1, 3);
    let c3 = Cuboid::new(Coordinate::new(0, 0, 5), 1, 1, 4);
    let program = Program::new(ProgramFormat::Cuboid(vec![c1.clone(), c2, c3.clone()]));
    let (below, above) = cut_program_at_z(program, 3);
    let below_cs = below.unwrap().cuboid().unwrap().clone();
    let above_cs = above.unwrap().cuboid().unwrap().clone();
    let c2_below = Cuboid::new(Coordinate::new(0, 0, 2), 1, 1, 1);
    let c2_above = Cuboid::new(Coordinate::new(0, 0, 3), 1, 1, 2);
    assert_eq!(below_cs, vec![c1, c2_below]);
    assert_eq!(above_cs, vec![c2_above, c3]);
}

#[test]
fn test_cut_single_cuboid() {
    // a 1x1x5 column cut at z = 3 splits into heights 3 and 2
    let c = Cuboid::new(Coordinate::new(0, 0, 0), 1, 1, 5);
    let program = Program::new(ProgramFormat::Cuboid(vec![c]));
    let (below, above) = cut_program_at_z(program, 3);
    let below_cs = below.unwrap().cuboid().unwrap().clone();
    let above_cs = above.unwrap().cuboid().unwrap().clone();
    assert_eq!(below_cs, vec![Cuboid::new(Coordinate::new(0, 0, 0), 1, 1, 3)]);
    assert_eq!(above_cs, vec![Cuboid::new(Coordinate::new(0, 0, 3), 1, 1, 2)]);
}

#[test]
fn test_burst_time() {
    let poly = Program::new(ProgramFormat::Polycube(Polycube::new(vec![
        Coordinate::new(0, 0, 0),
        Coordinate::new(0, 1, 0),
        Coordinate::new(1, 0, 0),
    ])));
    assert_eq!(poly.burst_time(), 1);
    let cub = Program::new(ProgramFormat::Cuboid(vec![Cuboid::new(
        Coordinate::new(0, 0, 2),
        1,
        1,
        3,
    )]));
    assert_eq!(cub.burst_time(), 3);
}

#[test]
fn test_drop_programs() {
    let c1 = Cuboid::new(Coordinate::new(0, 1, 0), 2, 2, 2);
    let c2 = Cuboid::new(Coordinate::new(2, 0, 0), 2, 2, 2);
    let c3 = Cuboid::new(Coordinate::new(1, 3, 1), 2, 2, 2);
    let p1 = Program::new(ProgramFormat::Cuboid(vec![c1]));
    let p2 = Program::new(ProgramFormat::Cuboid(vec![c2]));
    let p3 = Program::new(ProgramFormat::Cuboid(vec![c3]));

    let (_, _, ps) = drop_programs(0, vec![p1, p2, p3]);

    let c1_moved = Cuboid::new(Coordinate::new(0, 0, 0), 2, 2, 2);
    let c2_moved = Cuboid::new(Coordinate::new(2, 0, 0), 2, 2, 2);
    let c3_moved = Cuboid::new(Coordinate::new(0, 2, 1), 2, 2, 2);
    let p1_moved = Program::new(ProgramFormat::Cuboid(vec![c1_moved]));
    let p2_moved = Program::new(ProgramFormat::Cuboid(vec![c2_moved]));
    let p3_moved = Program::new(ProgramFormat::Cuboid(vec![c3_moved]));

    assert!(ps.contains(&p1_moved));
    assert!(ps.contains(&p2_moved));
    assert!(ps.contains(&p3_moved));
}
