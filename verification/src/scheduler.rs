//! Schedules and their application to programs, plus the scheduler interface.
//!
//! A schedule is a placement `(x, y, z, rotate, flip)`: flip across the
//! `x = 0` plane, rotate the `xy` plane by `rotate * 90` degrees, then
//! translate so that the result's bounding origin is `(x, y, z)` (polycube
//! programs) or shift by `(x, y, z)` (cuboid programs).

pub mod greedy_scheduler;

pub use greedy_scheduler::GreedyScheduler;

use vstd::prelude::*;

use crate::program::polycube::{Coordinate, Polycube};
use crate::program::{Cuboid, Program, ProgramFormat};

verus! {

/// Which placement engine a simulation uses.
#[derive(Debug, Clone, Copy, PartialEq, Eq, Structural)]
pub enum SchedulerKind {
    Greedy,
    LP,
}

/// A placement: a target position, a quarter-turn count and a flip.
#[derive(Debug, Clone, Copy, PartialEq, Eq, Hash, Structural)]
pub struct Schedule {
    pub x: i32,
    pub y: i32,
    pub z: i32,
    pub rotate: i32,
    pub flip: bool,
}

impl Schedule {
    pub fn new(x: i32, y: i32, z: i32, rotate: i32, flip: bool) -> (r: Self)
        ensures
            r == (Schedule { x, y, z, rotate, flip }),
    {
        Self { x, y, z, rotate, flip }
    }
}

/// The `x` coordinate of a cell after the optional flip across `x = 0`.
pub open spec fn flip_x(b: Coordinate, flip: bool) -> int {
    if flip {
        -(b.x as int)
    } else {
        b.x as int
    }
}

/// The `x` coordinate of a cell after flip and rotation.
pub open spec fn txs(b: Coordinate, rotate: int, flip: bool) -> int {
    if rotate == 0 {
        flip_x(b, flip)
    } else if rotate == 1 {
        -(b.y as int)
    } else if rotate == 2 {
        -flip_x(b, flip)
    } else {
        b.y as int
    }
}

/// The `y` coordinate of a cell after flip and rotation.
pub open spec fn tys(b: Coordinate, rotate: int, flip: bool) -> int {
    if rotate == 0 {
        b.y as int
    } else if rotate == 1 {
        flip_x(b, flip)
    } else if rotate == 2 {
        -(b.y as int)
    } else {
        -flip_x(b, flip)
    }
}

/// The least transformed `x` over the cells (0 for an empty list).
pub open spec fn min_txs(bs: Seq<Coordinate>, rotate: int, flip: bool) -> int
    decreases bs.len(),
{
    if bs.len() == 0 {
        0
    } else if bs.len() == 1 {
        txs(bs.last(), rotate, flip)
    } else if min_txs(bs.drop_last(), rotate, flip) <= txs(bs.last(), rotate, flip) {
        min_txs(bs.drop_last(), rotate, flip)
    } else {
        txs(bs.last(), rotate, flip)
    }
}

/// The least transformed `y` over the cells (0 for an empty list).
pub open spec fn min_tys(bs: Seq<Coordinate>, rotate: int, flip: bool) -> int
    decreases bs.len(),
{
    if bs.len() == 0 {
        0
    } else if bs.len() == 1 {
        tys(bs.last(), rotate, flip)
    } else if min_tys(bs.drop_last(), rotate, flip) <= tys(bs.last(), rotate, flip) {
        min_tys(bs.drop_last(), rotate, flip)
    } else {
        tys(bs.last(), rotate, flip)
    }
}

/// The least `z` over the cells (0 for an empty list).
pub open spec fn min_zs(bs: Seq<Coordinate>) -> int
    decreases bs.len(),
{
    if bs.len() == 0 {
        0
    } else if bs.len() == 1 {
        bs.last().z as int
    } else if min_zs(bs.drop_last()) <= bs.last().z as int {
        min_zs(bs.drop_last())
    } else {
        bs.last().z as int
    }
}

pub proof fn lemma_min_txs_bounds(bs: Seq<Coordinate>, rotate: int, flip: bool)
    ensures
        forall|i: int| 0 <= i < bs.len() ==> min_txs(bs, rotate, flip) <= txs(#[trigger] bs[i], rotate, flip),
        bs.len() > 0 ==> exists|i: int|
            0 <= i < bs.len() && txs(#[trigger] bs[i], rotate, flip) == min_txs(bs, rotate, flip),
    decreases bs.len(),
{
    if bs.len() > 0 {
        let d = bs.drop_last();
        lemma_min_txs_bounds(d, rotate, flip);
        assert forall|i: int| 0 <= i < bs.len() implies min_txs(bs, rotate, flip) <= txs(
            #[trigger] bs[i],
            rotate,
            flip,
        ) by {
            if i < bs.len() - 1 {
                assert(d[i] == bs[i]);
                assert(min_txs(d, rotate, flip) <= txs(d[i], rotate, flip));
            } else {
                assert(bs[i] == bs.last());
            }
        }
        if bs.len() == 1 {
            assert(bs[0] == bs.last());
            assert(txs(bs[0], rotate, flip) == min_txs(bs, rotate, flip));
        } else if min_txs(d, rotate, flip) <= txs(bs.last(), rotate, flip) {
            let j = choose|i: int|
                0 <= i < d.len() && txs(#[trigger] d[i], rotate, flip) == min_txs(d, rotate, flip);
            assert(bs[j] == d[j]);
            assert(txs(bs[j], rotate, flip) == min_txs(bs, rotate, flip));
        } else {
            assert(txs(bs[bs.len() - 1], rotate, flip) == min_txs(bs, rotate, flip));
        }
    }
}

pub proof fn lemma_min_tys_bounds(bs: Seq<Coordinate>, rotate: int, flip: bool)
    ensures
        forall|i: int| 0 <= i < bs.len() ==> min_tys(bs, rotate, flip) <= tys(#[trigger] bs[i], rotate, flip),
        bs.len() > 0 ==> exists|i: int|
            0 <= i < bs.len() && tys(#[trigger] bs[i], rotate, flip) == min_tys(bs, rotate, flip),
    decreases bs.len(),
{
    if bs.len() > 0 {
        let d = bs.drop_last();
        lemma_min_tys_bounds(d, rotate, flip);
        assert forall|i: int| 0 <= i < bs.len() implies min_tys(bs, rotate, flip) <= tys(
            #[trigger] bs[i],
            rotate,
            flip,
        ) by {
            if i < bs.len() - 1 {
                assert(d[i] == bs[i]);
                assert(min_tys(d, rotate, flip) <= tys(d[i], rotate, flip));
            } else {
                assert(bs[i] == bs.last());
            }
        }
        if bs.len() == 1 {
            assert(bs[0] == bs.last());
            assert(tys(bs[0], rotate, flip) == min_tys(bs, rotate, flip));
        } else if min_tys(d, rotate, flip) <= tys(bs.last(), rotate, flip) {
            let j = choose|i: int|
                0 <= i < d.len() && tys(#[trigger] d[i], rotate, flip) == min_tys(d, rotate, flip);
            assert(bs[j] == d[j]);
            assert(tys(bs[j], rotate, flip) == min_tys(bs, rotate, flip));
        } else {
            assert(tys(bs[bs.len() - 1], rotate, flip) == min_tys(bs, rotate, flip));
        }
    }
}

pub proof fn lemma_min_zs_bounds(bs: Seq<Coordinate>)
    ensures
        forall|i: int| 0 <= i < bs.len() ==> min_zs(bs) <= (#[trigger] bs[i]).z,
        bs.len() > 0 ==> exists|i: int| 0 <= i < bs.len() && (#[trigger] bs[i]).z == min_zs(bs),
    decreases bs.len(),
{
    if bs.len() > 0 {
        let d = bs.drop_last();
        lemma_min_zs_bounds(d);
        assert forall|i: int| 0 <= i < bs.len() implies min_zs(bs) <= (#[trigger] bs[i]).z by {
            if i < bs.len() - 1 {
                assert(d[i] == bs[i]);
                assert(min_zs(d) <= d[i].z);
            } else {
                assert(bs[i] == bs.last());
            }
        }
        if bs.len() == 1 {
            assert(bs[0] == bs.last());
            assert(bs[0].z == min_zs(bs));
        } else if min_zs(d) <= bs.last().z as int {
            let j = choose|i: int| 0 <= i < d.len() && (#[trigger] d[i]).z == min_zs(d);
            assert(bs[j] == d[j]);
            assert(bs[j].z == min_zs(bs));
        } else {
            assert(bs[bs.len() - 1].z == min_zs(bs));
        }
    }
}

/// The final `x` of cell `b` under schedule `s`, over the cell list `bs`.
pub open spec fn sched_x(bs: Seq<Coordinate>, b: Coordinate, s: Schedule) -> int {
    txs(b, s.rotate as int, s.flip) - min_txs(bs, s.rotate as int, s.flip) + s.x
}

/// The final `y` of cell `b` under schedule `s`.
pub open spec fn sched_y(bs: Seq<Coordinate>, b: Coordinate, s: Schedule) -> int {
    tys(b, s.rotate as int, s.flip) - min_tys(bs, s.rotate as int, s.flip) + s.y
}

/// The final `z` of cell `b` under schedule `s`.
pub open spec fn sched_z(bs: Seq<Coordinate>, b: Coordinate, s: Schedule) -> int {
    b.z - min_zs(bs) + s.z
}

/// Every transformed cell stays within the machine's coordinate range.
pub open spec fn poly_schedule_fits(bs: Seq<Coordinate>, s: Schedule) -> bool {
    forall|i: int|
        0 <= i < bs.len() ==> {
            &&& i32::MIN <= sched_x(bs, #[trigger] bs[i], s) <= i32::MAX
            &&& i32::MIN <= sched_y(bs, bs[i], s) <= i32::MAX
            &&& i32::MIN <= sched_z(bs, bs[i], s) <= i32::MAX
        }
}

/// Apply `schedule` to a polycube: flip, rotate, then translate so the
/// bounding origin of the result is `(schedule.x, schedule.y, schedule.z)`.
pub fn apply_schedule_to_polycube(polycube: &Polycube, schedule: &Schedule) -> (r: Polycube)
    requires
        0 <= schedule.rotate < 4,
        poly_schedule_fits(polycube@, *schedule),
    ensures
        r@.len() == polycube@.len(),
        forall|i: int|
            0 <= i < polycube@.len() ==> {
                &&& (#[trigger] r@[i]).x == sched_x(polycube@, polycube@[i], *schedule)
                &&& r@[i].y == sched_y(polycube@, polycube@[i], *schedule)
                &&& r@[i].z == sched_z(polycube@, polycube@[i], *schedule)
            },
        r.bounds_wf(),
{
    let blocks = polycube.blocks();
    let n = blocks.len();
    if n == 0 {
        return Polycube::new(Vec::new());
    }
    proof {
        lemma_min_txs_bounds(polycube@, schedule.rotate as int, schedule.flip);
        lemma_min_tys_bounds(polycube@, schedule.rotate as int, schedule.flip);
        lemma_min_zs_bounds(polycube@);
    }
    let rot = schedule.rotate;
    let flip = schedule.flip;
    // transformed coordinates, in 64 bits so that no step can overflow
    let mut min_x: i64 = i64::MAX;
    let mut min_y: i64 = i64::MAX;
    let mut min_z: i64 = i64::MAX;
    let mut i: usize = 0;
    while i < n
        invariant
            0 <= i <= n,
            n == polycube@.len(),
            blocks@ == polycube@,
            rot == schedule.rotate,
            flip == schedule.flip,
            0 <= rot < 4,
            forall|j: int|
                0 <= j < i ==> {
                    &&& min_x <= txs(#[trigger] polycube@[j], rot as int, flip)
                    &&& min_y <= tys(polycube@[j], rot as int, flip)
                    &&& min_z <= polycube@[j].z
                },
            i == 0 ==> min_x == i64::MAX && min_y == i64::MAX && min_z == i64::MAX,
            i > 0 ==> {
                &&& exists|j: int|
                    0 <= j < i && txs(#[trigger] polycube@[j], rot as int, flip) == min_x
                &&& exists|j: int|
                    0 <= j < i && tys(#[trigger] polycube@[j], rot as int, flip) == min_y
                &&& exists|j: int| 0 <= j < i && (#[trigger] polycube@[j]).z == min_z
            },
        decreases n - i,
    {
        let b = blocks[i];
        let fx: i64 = if flip {
            -(b.x as i64)
        } else {
            b.x as i64
        };
        let (tx, ty): (i64, i64) = if rot == 0 {
            (fx, b.y as i64)
        } else if rot == 1 {
            (-(b.y as i64), fx)
        } else if rot == 2 {
            (-fx, -(b.y as i64))
        } else {
            (b.y as i64, -fx)
        };
        if tx < min_x {
            min_x = tx;
        }
        if ty < min_y {
            min_y = ty;
        }
        if (b.z as i64) < min_z {
            min_z = b.z as i64;
        }
        i = i + 1;
    }
    proof {
        let ghost rt = rot as int;
        let j1 = choose|j: int| 0 <= j < polycube@.len() && txs(#[trigger] polycube@[j], rt, flip) == min_x;
        let k1 = choose|j: int|
            0 <= j < polycube@.len() && txs(#[trigger] polycube@[j], rt, flip) == min_txs(
                polycube@,
                rt,
                flip,
            );
        assert(min_x == min_txs(polycube@, rt, flip));
        let j2 = choose|j: int| 0 <= j < polycube@.len() && tys(#[trigger] polycube@[j], rt, flip) == min_y;
        let k2 = choose|j: int|
            0 <= j < polycube@.len() && tys(#[trigger] polycube@[j], rt, flip) == min_tys(
                polycube@,
                rt,
                flip,
            );
        assert(min_y == min_tys(polycube@, rt, flip));
        let j3 = choose|j: int| 0 <= j < polycube@.len() && (#[trigger] polycube@[j]).z == min_z;
        let k3 = choose|j: int| 0 <= j < polycube@.len() && (#[trigger] polycube@[j]).z == min_zs(polycube@);
        assert(min_z == min_zs(polycube@));
    }
    let mut out: Vec<Coordinate> = Vec::new();
    let mut i: usize = 0;
    while i < n
        invariant
            0 <= i <= n,
            n == polycube@.len(),
            blocks@ == polycube@,
            rot == schedule.rotate,
            flip == schedule.flip,
            0 <= rot < 4,
            min_x == min_txs(polycube@, rot as int, flip),
            min_y == min_tys(polycube@, rot as int, flip),
            min_z == min_zs(polycube@),
            poly_schedule_fits(polycube@, *schedule),
            out@.len() == i,
            forall|j: int|
                0 <= j < i ==> {
                    &&& (#[trigger] out@[j]).x == sched_x(polycube@, polycube@[j], *schedule)
                    &&& out@[j].y == sched_y(polycube@, polycube@[j], *schedule)
                    &&& out@[j].z == sched_z(polycube@, polycube@[j], *schedule)
                },
        decreases n - i,
    {
        let b = blocks[i];
        let fx: i64 = if flip {
            -(b.x as i64)
        } else {
            b.x as i64
        };
        let (tx, ty): (i64, i64) = if rot == 0 {
            (fx, b.y as i64)
        } else if rot == 1 {
            (-(b.y as i64), fx)
        } else if rot == 2 {
            (-fx, -(b.y as i64))
        } else {
            (b.y as i64, -fx)
        };
        let x: i64 = tx - min_x + (schedule.x as i64);
        let y: i64 = ty - min_y + (schedule.y as i64);
        let z: i64 = (b.z as i64) - min_z + (schedule.z as i64);
        out.push(Coordinate::new(x as i32, y as i32, z as i32));
        i = i + 1;
    }
    Polycube::new(out)
}

/// The translated cuboid stays within the machine's coordinate range.
pub open spec fn cuboid_schedule_fits(c: Cuboid, s: Schedule) -> bool {
    let sx = if s.rotate % 2 == 1 {
        c.sy()
    } else {
        c.sx()
    };
    let sy = if s.rotate % 2 == 1 {
        c.sx()
    } else {
        c.sy()
    };
    &&& i32::MIN <= c.x1s() + s.x
    &&& c.x1s() + s.x + sx <= i32::MAX
    &&& i32::MIN <= c.y1s() + s.y
    &&& c.y1s() + s.y + sy <= i32::MAX
    &&& i32::MIN <= c.z1s() + s.z
    &&& c.z1s() + s.z + c.sz() <= i32::MAX
}

/// Apply `schedule` to a cuboid: shift the origin by `(x, y, z)` and swap the
/// `x`/`y` sizes on an odd quarter-turn.
pub fn apply_schedule_to_cuboid(cuboid: &Cuboid, schedule: &Schedule) -> (r: Cuboid)
    requires
        0 <= schedule.rotate < 4,
        cuboid.wf(),
        cuboid_schedule_fits(*cuboid, *schedule),
    ensures
        r.x1s() == cuboid.x1s() + schedule.x,
        r.y1s() == cuboid.y1s() + schedule.y,
        r.z1s() == cuboid.z1s() + schedule.z,
        schedule.rotate % 2 == 1 ==> r.sx() == cuboid.sy() && r.sy() == cuboid.sx(),
        schedule.rotate % 2 == 0 ==> r.sx() == cuboid.sx() && r.sy() == cuboid.sy(),
        r.sz() == cuboid.sz(),
        r.wf(),
{
    let (size_x, size_y) = if schedule.rotate % 2 == 1 {
        (cuboid.size_y(), cuboid.size_x())
    } else {
        (cuboid.size_x(), cuboid.size_y())
    };
    let pos = Coordinate::new(
        cuboid.x1() + schedule.x,
        cuboid.y1() + schedule.y,
        cuboid.z1() + schedule.z,
    );
    Cuboid::new(pos, size_x, size_y, cuboid.size_z())
}

/// Every part of the program stays in range under the schedule.
pub open spec fn program_schedule_fits(p: Program, s: Schedule) -> bool {
    match p.format_spec() {
        ProgramFormat::Polycube(poly) => poly_schedule_fits(poly@, s),
        ProgramFormat::Cuboid(cs) => forall|i: int|
            0 <= i < cs@.len() ==> cuboid_schedule_fits(#[trigger] cs@[i], s),
    }
}

/// What `apply_schedule` returns: the placed program, format by format.
pub open spec fn apply_schedule_spec(p: Program, s: Schedule, r: Program) -> bool {
    &&& r.is_polycube_spec() == p.is_polycube_spec()
    &&& r.is_cuboid_spec() == p.is_cuboid_spec()
    &&& p.is_polycube_spec() ==> {
        &&& r.poly()@.len() == p.poly()@.len()
        &&& forall|i: int|
            0 <= i < p.poly()@.len() ==> {
                &&& (#[trigger] r.poly()@[i]).x == sched_x(p.poly()@, p.poly()@[i], s)
                &&& r.poly()@[i].y == sched_y(p.poly()@, p.poly()@[i], s)
                &&& r.poly()@[i].z == sched_z(p.poly()@, p.poly()@[i], s)
            }
        &&& r.poly().bounds_wf()
    }
    &&& p.is_cuboid_spec() ==> {
        &&& r.cubs().len() == p.cubs().len()
        &&& forall|i: int|
            0 <= i < p.cubs().len() ==> {
                &&& (#[trigger] r.cubs()[i]).x1s() == p.cubs()[i].x1s() + s.x
                &&& r.cubs()[i].y1s() == p.cubs()[i].y1s() + s.y
                &&& r.cubs()[i].z1s() == p.cubs()[i].z1s() + s.z
                &&& r.cubs()[i].sz() == p.cubs()[i].sz()
                &&& s.rotate % 2 == 1 ==> r.cubs()[i].sx() == p.cubs()[i].sy() && r.cubs()[i].sy()
                    == p.cubs()[i].sx()
                &&& s.rotate % 2 == 0 ==> r.cubs()[i].sx() == p.cubs()[i].sx() && r.cubs()[i].sy()
                    == p.cubs()[i].sy()
                &&& r.cubs()[i].wf()
            }
    }
}

/// Place a program according to a schedule.
pub fn apply_schedule(program: &Program, schedule: &Schedule) -> (r: Program)
    requires
        0 <= schedule.rotate < 4,
        program.wf(),
        program_schedule_fits(*program, *schedule),
    ensures
        apply_schedule_spec(*program, *schedule, r),
        r.wf(),
{
    match program.format() {
        ProgramFormat::Polycube(polycube) => {
            proof {
                assert(program.format_spec() == ProgramFormat::Polycube(*polycube));
            }
            let scheduled = apply_schedule_to_polycube(polycube, schedule);
            Program::new(ProgramFormat::Polycube(scheduled))
        },
        ProgramFormat::Cuboid(cuboids) => {
            proof {
                assert(program.format_spec() == ProgramFormat::Cuboid(*cuboids));
            }
            let mut out: Vec<Cuboid> = Vec::new();
            let mut i: usize = 0;
            while i < cuboids.len()
                invariant
                    0 <= i <= cuboids@.len(),
                    cuboids@ == program.cubs(),
                    0 <= schedule.rotate < 4,
                    forall|j: int| 0 <= j < cuboids@.len() ==> (#[trigger] cuboids@[j]).wf(),
                    forall|j: int|
                        0 <= j < cuboids@.len() ==> cuboid_schedule_fits(
                            #[trigger] cuboids@[j],
                            *schedule,
                        ),
                    out@.len() == i,
                    forall|j: int|
                        0 <= j < i ==> {
                            &&& (#[trigger] out@[j]).x1s() == cuboids@[j].x1s() + schedule.x
                            &&& out@[j].y1s() == cuboids@[j].y1s() + schedule.y
                            &&& out@[j].z1s() == cuboids@[j].z1s() + schedule.z
                            &&& out@[j].sz() == cuboids@[j].sz()
                            &&& schedule.rotate % 2 == 1 ==> out@[j].sx() == cuboids@[j].sy()
                                && out@[j].sy() == cuboids@[j].sx()
                            &&& schedule.rotate % 2 == 0 ==> out@[j].sx() == cuboids@[j].sx()
                                && out@[j].sy() == cuboids@[j].sy()
                            &&& out@[j].wf()
                        },
                decreases cuboids@.len() - i,
            {
                let c = apply_schedule_to_cuboid(&cuboids[i], schedule);
                out.push(c);
                i = i + 1;
            }
            Program::new(ProgramFormat::Cuboid(out))
        },
    }
}

/// Whether every part of the program stays in the machine's coordinate
/// range under the schedule, decided at run time.
#[verifier::spinoff_prover]
pub fn program_fits(p: &Program, s: &Schedule) -> (r: bool)
    requires
        p.wf(),
        0 <= s.rotate < 4,
    ensures
        r == program_schedule_fits(*p, *s),
{
    match p.format() {
        ProgramFormat::Polycube(poly) => {
            proof {
                assert(p.format_spec() == ProgramFormat::Polycube(*poly));
                lemma_min_txs_bounds(poly@, s.rotate as int, s.flip);
                lemma_min_tys_bounds(poly@, s.rotate as int, s.flip);
                lemma_min_zs_bounds(poly@);
            }
            let blocks = poly.blocks();
            let n = blocks.len();
            if n == 0 {
                return true;
            }
            let rot = s.rotate;
            let flip = s.flip;
            let mut min_x: i64 = i64::MAX;
            let mut min_y: i64 = i64::MAX;
            let mut min_z: i64 = i64::MAX;
            let mut i: usize = 0;
            while i < n
                invariant
                    0 <= i <= n,
                    n == poly@.len(),
                    blocks@ == poly@,
                    p.is_polycube_spec(),
                    *poly == p.poly(),
                    rot == s.rotate,
                    flip == s.flip,
                    0 <= rot < 4,
                    forall|j: int|
                        0 <= j < i ==> {
                            &&& min_x <= txs(#[trigger] poly@[j], rot as int, flip)
                            &&& min_y <= tys(poly@[j], rot as int, flip)
                            &&& min_z <= poly@[j].z
                        },
                    i == 0 ==> min_x == i64::MAX && min_y == i64::MAX && min_z == i64::MAX,
                    i > 0 ==> {
                        &&& exists|j: int|
                            0 <= j < i && txs(#[trigger] poly@[j], rot as int, flip) == min_x
                        &&& exists|j: int|
                            0 <= j < i && tys(#[trigger] poly@[j], rot as int, flip) == min_y
                        &&& exists|j: int| 0 <= j < i && (#[trigger] poly@[j]).z == min_z
                    },
                decreases n - i,
            {
                let b = blocks[i];
                let fx: i64 = if flip {
                    -(b.x as i64)
                } else {
                    b.x as i64
                };
                let (tx, ty): (i64, i64) = if rot == 0 {
                    (fx, b.y as i64)
                } else if rot == 1 {
                    (-(b.y as i64), fx)
                } else if rot == 2 {
                    (-fx, -(b.y as i64))
                } else {
                    (b.y as i64, -fx)
                };
                if tx < min_x {
                    min_x = tx;
                }
                if ty < min_y {
                    min_y = ty;
                }
                if (b.z as i64) < min_z {
                    min_z = b.z as i64;
                }
                i = i + 1;
            }
            proof {
                let ghost rt = s.rotate as int;
                let j1 = choose|j: int|
                    0 <= j < poly@.len() && txs(#[trigger] poly@[j], rt, flip) == min_x;
                let k1 = choose|j: int|
                    0 <= j < poly@.len() && txs(#[trigger] poly@[j], rt, flip) == min_txs(
                        poly@,
                        rt,
                        flip,
                    );
                assert(min_x == min_txs(poly@, rt, flip));
                let j2 = choose|j: int|
                    0 <= j < poly@.len() && tys(#[trigger] poly@[j], rt, flip) == min_y;
                let k2 = choose|j: int|
                    0 <= j < poly@.len() && tys(#[trigger] poly@[j], rt, flip) == min_tys(
                        poly@,
                        rt,
                        flip,
                    );
                assert(min_y == min_tys(poly@, rt, flip));
                let j3 = choose|j: int| 0 <= j < poly@.len() && (#[trigger] poly@[j]).z == min_z;
                let k3 = choose|j: int|
                    0 <= j < poly@.len() && (#[trigger] poly@[j]).z == min_zs(poly@);
                assert(min_z == min_zs(poly@));
                assert(-0x1_0000_0000 <= min_x <= 0x1_0000_0000);
                assert(-0x1_0000_0000 <= min_y <= 0x1_0000_0000);
                assert(-0x1_0000_0000 <= min_z <= 0x1_0000_0000);
            }
            let mut i: usize = 0;
            while i < n
                invariant
                    0 <= i <= n,
                    n == poly@.len(),
                    blocks@ == poly@,
                    p.is_polycube_spec(),
                    *poly == p.poly(),
                    rot == s.rotate,
                    flip == s.flip,
                    0 <= rot < 4,
                    min_x == min_txs(poly@, rot as int, flip),
                    min_y == min_tys(poly@, rot as int, flip),
                    min_z == min_zs(poly@),
                    -0x1_0000_0000 <= min_x <= 0x1_0000_0000,
                    -0x1_0000_0000 <= min_y <= 0x1_0000_0000,
                    -0x1_0000_0000 <= min_z <= 0x1_0000_0000,
                    forall|j: int|
                        0 <= j < i ==> {
                            &&& i32::MIN <= sched_x(poly@, #[trigger] poly@[j], *s) <= i32::MAX
                            &&& i32::MIN <= sched_y(poly@, poly@[j], *s) <= i32::MAX
                            &&& i32::MIN <= sched_z(poly@, poly@[j], *s) <= i32::MAX
                        },
                decreases n - i,
            {
                let b = blocks[i];
                let fx: i64 = if flip {
                    -(b.x as i64)
                } else {
                    b.x as i64
                };
                let (tx, ty): (i64, i64) = if rot == 0 {
                    (fx, b.y as i64)
                } else if rot == 1 {
                    (-(b.y as i64), fx)
                } else if rot == 2 {
                    (-fx, -(b.y as i64))
                } else {
                    (b.y as i64, -fx)
                };
                let x: i64 = tx - min_x + (s.x as i64);
                let y: i64 = ty - min_y + (s.y as i64);
                let z: i64 = (b.z as i64) - min_z + (s.z as i64);
                if !(i32::MIN as i64 <= x && x <= i32::MAX as i64 && i32::MIN as i64 <= y && y
                    <= i32::MAX as i64 && i32::MIN as i64 <= z && z <= i32::MAX as i64) {
                    proof {
                        assert(tx == txs(poly@[i as int], rot as int, flip));
                        assert(ty == tys(poly@[i as int], rot as int, flip));
                        assert(x == sched_x(poly@, poly@[i as int], *s));
                        assert(y == sched_y(poly@, poly@[i as int], *s));
                        assert(z == sched_z(poly@, poly@[i as int], *s));
                        assert(!poly_schedule_fits(poly@, *s));
                    }
                    return false;
                }
                i = i + 1;
            }
            true
        },
        ProgramFormat::Cuboid(cs) => {
            proof {
                assert(p.format_spec() == ProgramFormat::Cuboid(*cs));
                assert forall|j: int| 0 <= j < cs@.len() implies (#[trigger] cs@[j]).wf() by {
                    assert(p.cubs()[j].wf());
                }
            }
            let mut i: usize = 0;
            while i < cs.len()
                invariant
                    0 <= i <= cs@.len(),
                    p.is_cuboid_spec(),
                    cs@ == p.cubs(),
                    0 <= s.rotate < 4,
                    forall|j: int| 0 <= j < cs@.len() ==> (#[trigger] cs@[j]).wf(),
                    forall|j: int| 0 <= j < i ==> cuboid_schedule_fits(#[trigger] cs@[j], *s),
                decreases cs@.len() - i,
            {
                proof {
                    assert(cs@[i as int].wf());
                }
                let c = &cs[i];
                let (sx, sy): (usize, usize) = if s.rotate % 2 == 1 {
                    (c.size_y(), c.size_x())
                } else {
                    (c.size_x(), c.size_y())
                };
                let x1: i64 = c.x1() as i64 + s.x as i64;
                let y1: i64 = c.y1() as i64 + s.y as i64;
                let z1: i64 = c.z1() as i64 + s.z as i64;
                let ok = i32::MIN as i64 <= x1 && x1 + sx as i64 <= i32::MAX as i64 && i32::MIN
                    as i64 <= y1 && y1 + sy as i64 <= i32::MAX as i64 && i32::MIN as i64 <= z1
                    && z1 + c.size_z() as i64 <= i32::MAX as i64;
                if !ok {
                    proof {
                        assert(!cuboid_schedule_fits(cs@[i as int], *s));
                    }
                    return false;
                }
                i = i + 1;
            }
            true
        },
    }
}

/// Two results of applying the same schedule to the same program are the
/// same placed geometry.
pub proof fn lemma_apply_spec_unique(p: Program, s: Schedule, a: Program, b: Program)
    requires
        apply_schedule_spec(p, s, a),
        apply_schedule_spec(p, s, b),
    ensures
        crate::program::prog_equiv(a, b),
{
    if p.is_polycube_spec() {
        assert(a.poly()@ =~= b.poly()@);
        lemma_bounds_determined(a.poly(), b.poly());
    } else {
        assert forall|i: int| 0 <= i < a.cubs().len() implies #[trigger] a.cubs()[i]
            == b.cubs()[i] by {
            let ca = a.cubs()[i];
            let cb = b.cubs()[i];
            assert(ca.x1s() == cb.x1s() && ca.y1s() == cb.y1s() && ca.z1s() == cb.z1s());
            assert(ca.pos_spec() == (Coordinate {
                x: cb.pos_spec().x,
                y: cb.pos_spec().y,
                z: cb.pos_spec().z,
            }));
            assert(ca.sx() == cb.sx() && ca.sy() == cb.sy() && ca.sz() == cb.sz());
            Cuboid::lemma_cuboid_eq(ca, cb);
        }
        assert(a.cubs() =~= b.cubs());
    }
}

/// Two polycubes with the same cells and consistent cached bounds have the
/// same bounds.
proof fn lemma_bounds_determined(a: Polycube, b: Polycube)
    requires
        a@ == b@,
        a.bounds_wf(),
        b.bounds_wf(),
    ensures
        crate::program::polycube::poly_equiv(a, b),
{
    if a@.len() == 0 {
    } else {
        let ax = choose|i: int| 0 <= i < a@.len() && (#[trigger] a@[i]).x == a.min_x_spec();
        let bx = choose|i: int| 0 <= i < b@.len() && (#[trigger] b@[i]).x == b.min_x_spec();
        assert(b.min_x_spec() <= a@[ax].x);
        assert(a.min_x_spec() <= b@[bx].x);
        let ax2 = choose|i: int| 0 <= i < a@.len() && (#[trigger] a@[i]).x == a.max_x_spec();
        let bx2 = choose|i: int| 0 <= i < b@.len() && (#[trigger] b@[i]).x == b.max_x_spec();
        assert(a@[ax2].x <= b.max_x_spec());
        assert(b@[bx2].x <= a.max_x_spec());
        let ay = choose|i: int| 0 <= i < a@.len() && (#[trigger] a@[i]).y == a.min_y_spec();
        let by = choose|i: int| 0 <= i < b@.len() && (#[trigger] b@[i]).y == b.min_y_spec();
        assert(b.min_y_spec() <= a@[ay].y);
        assert(a.min_y_spec() <= b@[by].y);
        let ay2 = choose|i: int| 0 <= i < a@.len() && (#[trigger] a@[i]).y == a.max_y_spec();
        let by2 = choose|i: int| 0 <= i < b@.len() && (#[trigger] b@[i]).y == b.max_y_spec();
        assert(a@[ay2].y <= b.max_y_spec());
        assert(b@[by2].y <= a.max_y_spec());
        let az = choose|i: int| 0 <= i < a@.len() && (#[trigger] a@[i]).z == a.min_z_spec();
        let bz = choose|i: int| 0 <= i < b@.len() && (#[trigger] b@[i]).z == b.min_z_spec();
        assert(b.min_z_spec() <= a@[az].z);
        assert(a.min_z_spec() <= b@[bz].z);
        let az2 = choose|i: int| 0 <= i < a@.len() && (#[trigger] a@[i]).z == a.max_z_spec();
        let bz2 = choose|i: int| 0 <= i < b@.len() && (#[trigger] b@[i]).z == b.max_z_spec();
        assert(a@[az2].z <= b.max_z_spec());
        assert(b@[bz2].z <= a.max_z_spec());
    }
}

/// Applying the zero schedule `(0, 0, 0, rotate 0, no flip)` normalizes a
/// polycube program to its bounding origin: each cell is translated by minus
/// the bounding minimum of the original cells.
pub proof fn lemma_apply_zero_schedule_normalizes(p: Program, r: Program)
    requires
        p.is_polycube_spec(),
        apply_schedule_spec(p, Schedule { x: 0, y: 0, z: 0, rotate: 0, flip: false }, r),
    ensures
        r.poly()@.len() == p.poly()@.len(),
        forall|i: int|
            0 <= i < p.poly()@.len() ==> {
                &&& (#[trigger] r.poly()@[i]).x == p.poly()@[i].x - min_txs(p.poly()@, 0, false)
                &&& r.poly()@[i].y == p.poly()@[i].y - min_tys(p.poly()@, 0, false)
                &&& r.poly()@[i].z == p.poly()@[i].z - min_zs(p.poly()@)
            },
{
    let s = Schedule { x: 0, y: 0, z: 0, rotate: 0, flip: false };
    assert forall|i: int| 0 <= i < p.poly()@.len() implies {
        &&& (#[trigger] r.poly()@[i]).x == p.poly()@[i].x - min_txs(p.poly()@, 0, false)
        &&& r.poly()@[i].y == p.poly()@[i].y - min_tys(p.poly()@, 0, false)
        &&& r.poly()@[i].z == p.poly()@[i].z - min_zs(p.poly()@)
    } by {
        assert(r.poly()@[i].x == sched_x(p.poly()@, p.poly()@[i], s));
        assert(txs(p.poly()@[i], 0, false) == p.poly()@[i].x);
        assert(tys(p.poly()@[i], 0, false) == p.poly()@[i].y);
    }
}

} // verus!
