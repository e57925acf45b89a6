//! Program geometry: a program is either a polycube (a set of unit cells) or
//! a list of axis-aligned cuboids describing the same job's shape.

pub mod cuboid;
pub mod polycube;

pub use cuboid::Cuboid;
pub use polycube::{Coordinate, Polycube};

use vstd::prelude::*;

verus! {

pub type ProgramCounter = u64;

#[derive(Debug, PartialEq, Eq)]
pub enum ProgramFormat {
    Polycube(Polycube),
    Cuboid(Vec<Cuboid>),
}

#[derive(Debug, PartialEq, Eq)]
pub struct Program {
    format: ProgramFormat,
}

/// The largest exclusive `z` bound among the cuboids, or 0 for an empty list.
pub open spec fn cubs_max_z2(cs: Seq<Cuboid>) -> int
    decreases cs.len(),
{
    if cs.len() == 0 {
        0
    } else if cs.len() == 1 {
        cs.last().z2s()
    } else if cubs_max_z2(cs.drop_last()) >= cs.last().z2s() {
        cubs_max_z2(cs.drop_last())
    } else {
        cs.last().z2s()
    }
}

/// The smallest `z` origin among the cuboids, or 0 for an empty list.
pub open spec fn cubs_min_z1(cs: Seq<Cuboid>) -> int
    decreases cs.len(),
{
    if cs.len() == 0 {
        0
    } else if cs.len() == 1 {
        cs.last().z1s()
    } else if cubs_min_z1(cs.drop_last()) <= cs.last().z1s() {
        cubs_min_z1(cs.drop_last())
    } else {
        cs.last().z1s()
    }
}

pub proof fn lemma_cubs_max_z2_bounds(cs: Seq<Cuboid>)
    ensures
        forall|i: int| 0 <= i < cs.len() ==> (#[trigger] cs[i]).z2s() <= cubs_max_z2(cs),
        cs.len() > 0 ==> exists|i: int|
            0 <= i < cs.len() && (#[trigger] cs[i]).z2s() == cubs_max_z2(cs),
    decreases cs.len(),
{
    if cs.len() > 0 {
        let d = cs.drop_last();
        lemma_cubs_max_z2_bounds(d);
        assert forall|i: int| 0 <= i < cs.len() implies (#[trigger] cs[i]).z2s() <= cubs_max_z2(
            cs,
        ) by {
            if i < cs.len() - 1 {
                assert(d[i] == cs[i]);
                assert(d[i].z2s() <= cubs_max_z2(d));
            } else {
                assert(cs[i] == cs.last());
            }
        }
        if cs.len() == 1 {
            assert(cs[0] == cs.last());
            assert(cs[0].z2s() == cubs_max_z2(cs));
        } else if cubs_max_z2(d) >= cs.last().z2s() {
            let j = choose|i: int| 0 <= i < d.len() && (#[trigger] d[i]).z2s() == cubs_max_z2(d);
            assert(cs[j] == d[j]);
            assert(cs[j].z2s() == cubs_max_z2(cs));
        } else {
            assert(cs[cs.len() - 1].z2s() == cubs_max_z2(cs));
        }
    }
}

pub proof fn lemma_cubs_min_z1_bounds(cs: Seq<Cuboid>)
    ensures
        forall|i: int| 0 <= i < cs.len() ==> cubs_min_z1(cs) <= (#[trigger] cs[i]).z1s(),
        cs.len() > 0 ==> exists|i: int|
            0 <= i < cs.len() && (#[trigger] cs[i]).z1s() == cubs_min_z1(cs),
    decreases cs.len(),
{
    if cs.len() > 0 {
        let d = cs.drop_last();
        lemma_cubs_min_z1_bounds(d);
        assert forall|i: int| 0 <= i < cs.len() implies cubs_min_z1(cs) <= (
        #[trigger] cs[i]).z1s() by {
            if i < cs.len() - 1 {
                assert(d[i] == cs[i]);
                assert(cubs_min_z1(d) <= d[i].z1s());
            } else {
                assert(cs[i] == cs.last());
            }
        }
        if cs.len() == 1 {
            assert(cs[0] == cs.last());
            assert(cs[0].z1s() == cubs_min_z1(cs));
        } else if cubs_min_z1(d) <= cs.last().z1s() {
            let j = choose|i: int| 0 <= i < d.len() && (#[trigger] d[i]).z1s() == cubs_min_z1(d);
            assert(cs[j] == d[j]);
            assert(cs[j].z1s() == cubs_min_z1(cs));
        } else {
            assert(cs[cs.len() - 1].z1s() == cubs_min_z1(cs));
        }
    }
}

impl Program {
    pub closed spec fn format_spec(&self) -> ProgramFormat {
        self.format
    }

    pub open spec fn is_polycube_spec(&self) -> bool {
        self.format_spec() is Polycube
    }

    pub open spec fn is_cuboid_spec(&self) -> bool {
        self.format_spec() is Cuboid
    }

    pub open spec fn poly(&self) -> Polycube
        recommends
            self.is_polycube_spec(),
    {
        self.format_spec()->Polycube_0
    }

    pub open spec fn cubs(&self) -> Seq<Cuboid>
        recommends
            self.is_cuboid_spec(),
    {
        self.format_spec()->Cuboid_0@
    }

    /// A program is non-empty, its cached bounds are consistent, and its
    /// cuboids fit the machine's coordinate range.
    pub open spec fn wf(&self) -> bool {
        match self.format_spec() {
            ProgramFormat::Polycube(p) => p.bounds_wf() && p@.len() > 0,
            ProgramFormat::Cuboid(cs) => cs@.len() > 0 && forall|i: int|
                0 <= i < cs@.len() ==> (#[trigger] cs@[i]).wf(),
        }
    }

    /// The smallest `z` touched by the program.
    pub open spec fn z1s(&self) -> int {
        match self.format_spec() {
            ProgramFormat::Polycube(p) => p.min_z_spec(),
            ProgramFormat::Cuboid(cs) => cubs_min_z1(cs@),
        }
    }

    /// The exclusive upper `z` bound of the program (`max_z_exclusive`).
    pub open spec fn z2s(&self) -> int {
        match self.format_spec() {
            ProgramFormat::Polycube(p) => p.max_z_spec() + 1,
            ProgramFormat::Cuboid(cs) => cubs_max_z2(cs@),
        }
    }

    pub fn new(format: ProgramFormat) -> (r: Self)
        ensures
            r.format_spec() == format,
    {
        Program { format }
    }

    pub fn is_polycube(&self) -> (r: bool)
        ensures
            r == self.is_polycube_spec(),
    {
        matches!(&self.format, ProgramFormat::Polycube(_))
    }

    pub fn polycube(&self) -> (r: Option<&Polycube>)
        ensures
            self.is_polycube_spec() ==> (r matches Some(p) && *p == self.poly()),
            !self.is_polycube_spec() ==> r is None,
    {
        match &self.format {
            ProgramFormat::Polycube(p) => Some(p),
            _ => None,
        }
    }

    pub fn is_cuboid(&self) -> (r: bool)
        ensures
            r == self.is_cuboid_spec(),
    {
        matches!(&self.format, ProgramFormat::Cuboid(_))
    }

    pub fn cuboid(&self) -> (r: Option<&Vec<Cuboid>>)
        ensures
            self.is_cuboid_spec() ==> (r matches Some(cs) && cs@ == self.cubs()),
            !self.is_cuboid_spec() ==> r is None,
    {
        match &self.format {
            ProgramFormat::Cuboid(c) => Some(c),
            _ => None,
        }
    }

    pub fn format(&self) -> (r: &ProgramFormat)
        ensures
            r == self.format_spec(),
    {
        &self.format
    }

    /// The largest `z` touched by the program (inclusive).
    pub fn max_z(&self) -> (r: i32)
        requires
            self.wf(),
            self.z2s() - 1 <= i32::MAX,
            self.z2s() - 1 >= i32::MIN,
        ensures
            r == self.z2s() - 1,
    {
        match self.format() {
            ProgramFormat::Polycube(p) => p.max_z(),
            ProgramFormat::Cuboid(cs) => {
                proof {
                    lemma_cubs_max_z2_bounds(cs@);
                }
                let mut best: i64 = cs[0].z2() as i64 - 1;
                let mut i: usize = 1;
                while i < cs.len()
                    invariant
                        1 <= i <= cs@.len(),
                        forall|j: int| 0 <= j < cs@.len() ==> (#[trigger] cs@[j]).wf(),
                        forall|j: int| 0 <= j < i ==> (#[trigger] cs@[j]).z2s() - 1 <= best,
                        exists|j: int| 0 <= j < i && (#[trigger] cs@[j]).z2s() - 1 == best,
                    decreases cs@.len() - i,
                {
                    let v: i64 = cs[i].z2() as i64 - 1;
                    if v > best {
                        best = v;
                    }
                    i = i + 1;
                }
                proof {
                    let j = choose|j: int|
                        0 <= j < cs@.len() && (#[trigger] cs@[j]).z2s() - 1 == best;
                    assert(cs@[j].z2s() <= cubs_max_z2(cs@));
                    let k = choose|k: int|
                        0 <= k < cs@.len() && (#[trigger] cs@[k]).z2s() == cubs_max_z2(cs@);
                    assert(cs@[k].z2s() - 1 <= best);
                }
                best as i32
            },
        }
    }

    /// Returns the burst time (the execution time) in cycles: the length of
    /// the program's `z` extent.
    pub fn burst_time(&self) -> (r: u64)
        requires
            self.wf(),
        ensures
            r == self.z2s() - self.z1s(),
    {
        match &self.format {
            ProgramFormat::Polycube(poly) => {
                proof {
                    // the cell attaining min_z shows min_z <= max_z
                    assert(poly.min_z_spec() <= poly.max_z_spec());
                }
                (poly.max_z() as i64 - poly.min_z() as i64 + 1) as u64
            },
            ProgramFormat::Cuboid(cs) => {
                proof {
                    lemma_cubs_max_z2_bounds(cs@);
                    lemma_cubs_min_z1_bounds(cs@);
                }
                let mut min_z: i64 = cs[0].z1() as i64;
                let mut max_z: i64 = cs[0].z2() as i64;
                let mut i: usize = 1;
                while i < cs.len()
                    invariant
                        1 <= i <= cs@.len(),
                        forall|j: int| 0 <= j < cs@.len() ==> (#[trigger] cs@[j]).wf(),
                        forall|j: int|
                            0 <= j < i ==> min_z <= (#[trigger] cs@[j]).z1s() && cs@[j].z2s()
                                <= max_z,
                        exists|j: int| 0 <= j < i && (#[trigger] cs@[j]).z1s() == min_z,
                        exists|j: int| 0 <= j < i && (#[trigger] cs@[j]).z2s() == max_z,
                    decreases cs@.len() - i,
                {
                    let z1: i64 = cs[i].z1() as i64;
                    let z2: i64 = cs[i].z2() as i64;
                    if z1 < min_z {
                        min_z = z1;
                    }
                    if z2 > max_z {
                        max_z = z2;
                    }
                    i = i + 1;
                }
                proof {
                    let j = choose|j: int| 0 <= j < cs@.len() && (#[trigger] cs@[j]).z1s() == min_z;
                    assert(cubs_min_z1(cs@) <= cs@[j].z1s());
                    let k = choose|k: int|
                        0 <= k < cs@.len() && (#[trigger] cs@[k]).z1s() == cubs_min_z1(cs@);
                    assert(min_z <= cs@[k].z1s());
                    let j2 = choose|j: int|
                        0 <= j < cs@.len() && (#[trigger] cs@[j]).z2s() == max_z;
                    assert(cs@[j2].z2s() <= cubs_max_z2(cs@));
                    let k2 = choose|k: int|
                        0 <= k < cs@.len() && (#[trigger] cs@[k]).z2s() == cubs_max_z2(cs@);
                    assert(cs@[k2].z2s() <= max_z);
                    assert(min_z == cubs_min_z1(cs@));
                    assert(max_z == cubs_max_z2(cs@));
                    assert(min_z <= cs@[0].z1s());
                    assert(cs@[0].z1s() <= cs@[0].z2s());
                    assert(cs@[0].z2s() <= max_z);
                }
                (max_z - min_z) as u64
            },
        }
    }
}

/// Two cuboids share at least one unit cell: their half-open extents
/// intersect on every axis, which requires both to be non-empty.
pub open spec fn cuboids_overlap(c1: Cuboid, c2: Cuboid) -> bool {
    &&& c1.x1s() < c1.x2s() && c2.x1s() < c2.x2s()
    &&& c1.y1s() < c1.y2s() && c2.y1s() < c2.y2s()
    &&& c1.z1s() < c1.z2s() && c2.z1s() < c2.z2s()
    &&& c2.x1s() < c1.x2s() && c1.x1s() < c2.x2s()
    &&& c2.y1s() < c1.y2s() && c1.y1s() < c2.y2s()
    &&& c2.z1s() < c1.z2s() && c1.z1s() < c2.z2s()
}

/// The two polycubes share a cell.
pub open spec fn polycubes_overlap(p1: Polycube, p2: Polycube) -> bool {
    exists|i: int, j: int|
        0 <= i < p1@.len() && 0 <= j < p2@.len() && #[trigger] p1@[i] == #[trigger] p2@[j]
}

/// A cell of the polycube lies inside the cuboid.
pub open spec fn polycube_cuboid_overlap(p: Polycube, c: Cuboid) -> bool {
    exists|i: int|
        0 <= i < p@.len() && c.contains_cell(
            (#[trigger] p@[i]).x as int,
            p@[i].y as int,
            p@[i].z as int,
        )
}

/// Some cuboid of the list contains the cell `(x, y, z)`.
pub open spec fn cubs_contain_cell(cs: Seq<Cuboid>, x: int, y: int, z: int) -> bool {
    exists|i: int| 0 <= i < cs.len() && #[trigger] cs[i].contains_cell(x, y, z)
}

/// A polycube program and a cuboid list overlap.
pub open spec fn polycube_cubs_overlap(a: Polycube, cs: Seq<Cuboid>) -> bool {
    exists|i: int| 0 <= i < cs.len() && polycube_cuboid_overlap(a, #[trigger] cs[i])
}

/// Two cuboid lists overlap.
pub open spec fn cubs_cubs_overlap(cs1: Seq<Cuboid>, cs2: Seq<Cuboid>) -> bool {
    exists|i: int, j: int|
        0 <= i < cs1.len() && 0 <= j < cs2.len() && #[trigger] cuboids_overlap(cs1[i], cs2[j])
}

/// The two programs overlap, format by format.
pub open spec fn programs_overlap(p1: Program, p2: Program) -> bool {
    if p1.is_polycube_spec() {
        if p2.is_polycube_spec() {
            polycubes_overlap(p1.poly(), p2.poly())
        } else {
            polycube_cubs_overlap(p1.poly(), p2.cubs())
        }
    } else {
        if p2.is_polycube_spec() {
            polycube_cubs_overlap(p2.poly(), p1.cubs())
        } else {
            cubs_cubs_overlap(p1.cubs(), p2.cubs())
        }
    }
}

pub fn is_overlap_polycubes(p1: &Polycube, p2: &Polycube) -> (r: bool)
    ensures
        r == polycubes_overlap(*p1, *p2),
{
    let b1 = p1.blocks();
    let b2 = p2.blocks();
    let mut i: usize = 0;
    while i < b1.len()
        invariant
            0 <= i <= b1@.len(),
            b1@ == p1@,
            b2@ == p2@,
            forall|a: int, b: int|
                0 <= a < i && 0 <= b < p2@.len() ==> #[trigger] p1@[a] != #[trigger] p2@[b],
        decreases b1@.len() - i,
    {
        let mut j: usize = 0;
        while j < b2.len()
            invariant
                0 <= i < b1@.len(),
                0 <= j <= b2@.len(),
                b1@ == p1@,
                b2@ == p2@,
                forall|b: int| 0 <= b < j ==> p1@[i as int] != #[trigger] p2@[b],
            decreases b2@.len() - j,
        {
            if b1[i] == b2[j] {
                return true;
            }
            j = j + 1;
        }
        i = i + 1;
    }
    false
}

pub fn is_overlap_cuboids(c1: &Cuboid, c2: &Cuboid) -> (r: bool)
    requires
        c1.wf(),
        c2.wf(),
    ensures
        r == cuboids_overlap(*c1, *c2),
{
    let nonempty = c1.size_x() > 0 && c1.size_y() > 0 && c1.size_z() > 0 && c2.size_x() > 0
        && c2.size_y() > 0 && c2.size_z() > 0;
    let is_overlap_x = !(c1.x2() <= c2.x1() || c2.x2() <= c1.x1());
    let is_overlap_y = !(c1.y2() <= c2.y1() || c2.y2() <= c1.y1());
    let is_overlap_z = !(c1.z2() <= c2.z1() || c2.z2() <= c1.z1());
    nonempty && is_overlap_x && is_overlap_y && is_overlap_z
}

pub fn is_overlap_polycube_cuboid(p: &Polycube, c: &Cuboid) -> (r: bool)
    requires
        c.wf(),
    ensures
        r == polycube_cuboid_overlap(*p, *c),
{
    let blocks = p.blocks();
    let mut i: usize = 0;
    while i < blocks.len()
        invariant
            0 <= i <= blocks@.len(),
            blocks@ == p@,
            c.wf(),
            forall|a: int|
                0 <= a < i ==> !c.contains_cell(
                    (#[trigger] p@[a]).x as int,
                    p@[a].y as int,
                    p@[a].z as int,
                ),
        decreases blocks@.len() - i,
    {
        let b = blocks[i];
        if c.x1() <= b.x && b.x < c.x2() && c.y1() <= b.y && b.y < c.y2() && c.z1() <= b.z && b.z
            < c.z2() {
            return true;
        }
        i = i + 1;
    }
    false
}

/// Whether a program and a list of cuboids overlap.
fn is_overlap_program_cuboids(p: &Program, cs: &Vec<Cuboid>) -> (r: bool)
    requires
        p.wf(),
        forall|i: int| 0 <= i < cs@.len() ==> (#[trigger] cs@[i]).wf(),
    ensures
        p.is_polycube_spec() ==> r == polycube_cubs_overlap(p.poly(), cs@),
        p.is_cuboid_spec() ==> r == cubs_cubs_overlap(p.cubs(), cs@),
{
    match p.format() {
        ProgramFormat::Polycube(poly) => {
            let mut j: usize = 0;
            while j < cs.len()
                invariant
                    0 <= j <= cs@.len(),
                    p.is_polycube_spec(),
                    *poly == p.poly(),
                    forall|b: int| 0 <= b < cs@.len() ==> (#[trigger] cs@[b]).wf(),
                    forall|b: int| 0 <= b < j ==> !polycube_cuboid_overlap(p.poly(), #[trigger] cs@[b]),
                decreases cs@.len() - j,
            {
                if is_overlap_polycube_cuboid(poly, &cs[j]) {
                    return true;
                }
                j = j + 1;
            }
            false
        },
        ProgramFormat::Cuboid(own) => {
            let mut i: usize = 0;
            while i < own.len()
                invariant
                    0 <= i <= own@.len(),
                    p.is_cuboid_spec(),
                    own@ == p.cubs(),
                    forall|a: int| 0 <= a < own@.len() ==> (#[trigger] own@[a]).wf(),
                    forall|b: int| 0 <= b < cs@.len() ==> (#[trigger] cs@[b]).wf(),
                    forall|a: int, b: int|
                        0 <= a < i && 0 <= b < cs@.len() ==> !(#[trigger] cuboids_overlap(
                            own@[a],
                            cs@[b],
                        )),
                decreases own@.len() - i,
            {
                let mut j: usize = 0;
                while j < cs.len()
                    invariant
                        0 <= i < own@.len(),
                        0 <= j <= cs@.len(),
                        p.is_cuboid_spec(),
                        own@ == p.cubs(),
                        forall|a: int| 0 <= a < own@.len() ==> (#[trigger] own@[a]).wf(),
                        forall|b: int| 0 <= b < cs@.len() ==> (#[trigger] cs@[b]).wf(),
                        forall|b: int|
                            0 <= b < j ==> !(#[trigger] cuboids_overlap(own@[i as int], cs@[b])),
                    decreases cs@.len() - j,
                {
                    if is_overlap_cuboids(&own[i], &cs[j]) {
                        return true;
                    }
                    j = j + 1;
                }
                i = i + 1;
            }
            false
        },
    }
}

pub fn is_overlap(p1: &Program, p2: &Program) -> (r: bool)
    requires
        p1.wf(),
        p2.wf(),
    ensures
        r == programs_overlap(*p1, *p2),
{
    match p1.format() {
        ProgramFormat::Polycube(a) => {
            proof {
                assert(p1.format_spec() == ProgramFormat::Polycube(*a));
            }
            match p2.format() {
                ProgramFormat::Polycube(b) => {
                    let r = is_overlap_polycubes(a, b);
                    proof {
                        assert(p2.format_spec() == ProgramFormat::Polycube(*b));
                    }
                    r
                },
                ProgramFormat::Cuboid(cs) => {
                    let r = is_overlap_program_cuboids(p1, cs);
                    proof {
                        assert(p2.format_spec() == ProgramFormat::Cuboid(*cs));
                    }
                    r
                },
            }
        },
        ProgramFormat::Cuboid(cs1) => {
            proof {
                assert(p1.format_spec() == ProgramFormat::Cuboid(*cs1));
            }
            match p2.format() {
                ProgramFormat::Polycube(b) => {
                    let r = is_overlap_program_cuboids(p2, cs1);
                    proof {
                        assert(p2.format_spec() == ProgramFormat::Polycube(*b));
                        assert(r == exists|i: int|
                            0 <= i < cs1@.len() && polycube_cuboid_overlap(
                                p2.poly(),
                                #[trigger] cs1@[i],
                            ));
                        assert(r == programs_overlap(*p1, *p2));
                    }
                    r
                },
                ProgramFormat::Cuboid(cs2) => {
                    let r = is_overlap_program_cuboids(p1, cs2);
                    proof {
                        assert(p2.format_spec() == ProgramFormat::Cuboid(*cs2));
                    }
                    r
                },
            }
        },
    }
}


/// `c` covers the same `x`/`y` footprint as `orig` and a sub-range of its
/// `z` extent.
pub open spec fn sub_slab(c: Cuboid, orig: Cuboid) -> bool {
    &&& c.x1s() == orig.x1s() && c.x2s() == orig.x2s()
    &&& c.y1s() == orig.y1s() && c.y2s() == orig.y2s()
    &&& orig.z1s() <= c.z1s() && c.z2s() <= orig.z2s()
}

proof fn lemma_cubs_cell_push(cs: Seq<Cuboid>, c: Cuboid)
    ensures
        forall|x: int, y: int, z: int|
            #![trigger cubs_contain_cell(cs.push(c), x, y, z)]
            cubs_contain_cell(cs.push(c), x, y, z) <==> cubs_contain_cell(cs, x, y, z)
                || c.contains_cell(x, y, z),
{
    assert forall|x: int, y: int, z: int|
        cubs_contain_cell(cs.push(c), x, y, z) <==> cubs_contain_cell(cs, x, y, z)
            || c.contains_cell(x, y, z) by {
        let e = cs.push(c);
        if cubs_contain_cell(e, x, y, z) {
            let i = choose|i: int| 0 <= i < e.len() && #[trigger] e[i].contains_cell(x, y, z);
            if i < cs.len() {
                assert(e[i] == cs[i]);
                assert(cs[i].contains_cell(x, y, z));
            } else {
                assert(e[i] == c);
            }
        }
        if cubs_contain_cell(cs, x, y, z) {
            let i = choose|i: int| 0 <= i < cs.len() && #[trigger] cs[i].contains_cell(x, y, z);
            assert(e[i] == cs[i]);
            assert(e[i].contains_cell(x, y, z));
        }
        if c.contains_cell(x, y, z) {
            assert(e[cs.len() as int].contains_cell(x, y, z));
        }
    }
}

/// The cuboid has cells strictly below the plane `z`, or lies entirely at
/// or below it: it contributes a part to the lower half of a cut.
pub open spec fn contributes_below(c: Cuboid, z: int) -> bool {
    c.z1s() < z || c.z2s() <= z
}

/// The cuboid has cells at or above the plane `z`: it contributes a part to
/// the upper half of a cut.
pub open spec fn contributes_above(c: Cuboid, z: int) -> bool {
    c.z2s() > z
}

/// `b` is exactly the part of `c` below the plane `z`: `c` itself when it
/// ends at or before the plane, otherwise `c` truncated at the plane.
pub open spec fn below_part(c: Cuboid, z: int, b: Cuboid) -> bool {
    if c.z2s() <= z {
        b == c
    } else {
        &&& b.x1s() == c.x1s() && b.x2s() == c.x2s()
        &&& b.y1s() == c.y1s() && b.y2s() == c.y2s()
        &&& b.z1s() == c.z1s() && b.z2s() == z
    }
}

/// `a` is exactly the part of `c` at or above the plane `z`: `c` itself when
/// it starts at or after the plane, otherwise `c` cut off below the plane.
pub open spec fn above_part(c: Cuboid, z: int, a: Cuboid) -> bool {
    if c.z1s() >= z {
        a == c
    } else {
        &&& a.x1s() == c.x1s() && a.x2s() == c.x2s()
        &&& a.y1s() == c.y1s() && a.y2s() == c.y2s()
        &&& a.z1s() == z && a.z2s() == c.z2s()
    }
}

/// `out` holds exactly the `part`-images of the contributing cuboids of
/// `cs`, in input order: `m` lists the contributing indices increasingly.
pub open spec fn cut_map(
    cs: Seq<Cuboid>,
    z: int,
    out: Seq<Cuboid>,
    m: Seq<int>,
    above: bool,
) -> bool {
    &&& m.len() == out.len()
    &&& forall|j: int, l: int| 0 <= j < l < m.len() ==> #[trigger] m[j] < #[trigger] m[l]
    &&& forall|j: int|
        0 <= j < m.len() ==> 0 <= #[trigger] m[j] < cs.len() && if above {
            above_part(cs[m[j]], z, out[j])
        } else {
            below_part(cs[m[j]], z, out[j])
        }
    &&& forall|i: int|
        0 <= i < cs.len() && (if above {
            contributes_above(#[trigger] cs[i], z)
        } else {
            contributes_below(cs[i], z)
        }) ==> exists|j: int| 0 <= j < m.len() && #[trigger] m[j] == i
}

/// Divide a cuboid-format program into the part of each cuboid below the
/// plane `z` and the part at or above it, in input order. A cuboid ending
/// exactly at the plane lies entirely below it. Every occupied cell lands in
/// exactly the half its `z` position selects, with `x`/`y` footprints
/// unchanged.
#[verifier::spinoff_prover]
#[verifier::rlimit(100)]
pub fn cut_program_at_z(p: Program, z: i32) -> (r: (Option<Program>, Option<Program>))
    requires
        p.is_cuboid_spec(),
        p.wf(),
    ensures
        (r.0 is Some) == exists|i: int|
            0 <= i < p.cubs().len() && contributes_below(#[trigger] p.cubs()[i], z as int),
        (r.1 is Some) == exists|i: int|
            0 <= i < p.cubs().len() && contributes_above(#[trigger] p.cubs()[i], z as int),
        r.0 matches Some(b) ==> {
            &&& b.is_cuboid_spec() && b.wf()
            &&& forall|j: int| 0 <= j < b.cubs().len() ==> (#[trigger] b.cubs()[j]).z2s() <= z
            &&& exists|m: Seq<int>| cut_map(p.cubs(), z as int, b.cubs(), m, false)
        },
        r.1 matches Some(a) ==> {
            &&& a.is_cuboid_spec() && a.wf()
            &&& forall|j: int| 0 <= j < a.cubs().len() ==> (#[trigger] a.cubs()[j]).z1s() >= z
            &&& (forall|i: int| 0 <= i < p.cubs().len() ==> (#[trigger] p.cubs()[i]).sz() > 0)
                ==> forall|j: int| 0 <= j < a.cubs().len() ==> (#[trigger] a.cubs()[j]).sz() > 0
            &&& exists|m: Seq<int>| cut_map(p.cubs(), z as int, a.cubs(), m, true)
        },
        forall|x: int, y: int, zz: int|
            #![trigger cubs_contain_cell(p.cubs(), x, y, zz)]
            cubs_contain_cell(p.cubs(), x, y, zz) <==> {
                ||| (r.0 matches Some(b) && cubs_contain_cell(b.cubs(), x, y, zz))
                ||| (r.1 matches Some(a) && cubs_contain_cell(a.cubs(), x, y, zz))
            },
{
    let cs = match p.format() {
        ProgramFormat::Cuboid(cs) => cs,
        ProgramFormat::Polycube(_) => {
            proof {
                assert(false);
            }
            return (None, None);
        },
    };
    proof {
        assert(p.format_spec() == ProgramFormat::Cuboid(*cs));
    }
    let mut below: Vec<Cuboid> = Vec::new();
    let mut above: Vec<Cuboid> = Vec::new();
    let ghost mut mb: Seq<int> = Seq::empty();
    let ghost mut ma: Seq<int> = Seq::empty();
    let mut k: usize = 0;
    while k < cs.len()
        invariant
            0 <= k <= cs@.len(),
            p.is_cuboid_spec(),
            cs@ == p.cubs(),
            forall|i: int| 0 <= i < cs@.len() ==> (#[trigger] cs@[i]).wf(),
            forall|j: int| 0 <= j < below@.len() ==> (#[trigger] below@[j]).wf(),
            forall|j: int| 0 <= j < above@.len() ==> (#[trigger] above@[j]).wf(),
            forall|j: int| 0 <= j < below@.len() ==> (#[trigger] below@[j]).z2s() <= z,
            forall|j: int| 0 <= j < above@.len() ==> (#[trigger] above@[j]).z1s() >= z,
            (forall|i: int| 0 <= i < cs@.len() ==> (#[trigger] cs@[i]).sz() > 0) ==> forall|j: int|
                0 <= j < above@.len() ==> (#[trigger] above@[j]).sz() > 0,
            mb.len() == below@.len(),
            ma.len() == above@.len(),
            forall|j: int| 0 <= j < mb.len() ==> 0 <= #[trigger] mb[j] < k,
            forall|j: int| 0 <= j < ma.len() ==> 0 <= #[trigger] ma[j] < k,
            forall|j: int, l: int| 0 <= j < l < mb.len() ==> #[trigger] mb[j] < #[trigger] mb[l],
            forall|j: int, l: int| 0 <= j < l < ma.len() ==> #[trigger] ma[j] < #[trigger] ma[l],
            forall|j: int|
                0 <= j < mb.len() ==> below_part(cs@[#[trigger] mb[j]], z as int, below@[j]),
            forall|j: int|
                0 <= j < ma.len() ==> above_part(cs@[#[trigger] ma[j]], z as int, above@[j]),
            forall|i: int|
                0 <= i < k && contributes_below(#[trigger] cs@[i], z as int) ==> exists|j: int|
                    0 <= j < mb.len() && #[trigger] mb[j] == i,
            forall|i: int|
                0 <= i < k && contributes_above(#[trigger] cs@[i], z as int) ==> exists|j: int|
                    0 <= j < ma.len() && #[trigger] ma[j] == i,
            (below@.len() > 0) == exists|i: int|
                0 <= i < k && contributes_below(#[trigger] cs@[i], z as int),
            (above@.len() > 0) == exists|i: int|
                0 <= i < k && contributes_above(#[trigger] cs@[i], z as int),
            forall|x: int, y: int, zz: int|
                #![trigger cubs_contain_cell(cs@.take(k as int), x, y, zz)]
                cubs_contain_cell(cs@.take(k as int), x, y, zz) <==> (cubs_contain_cell(
                    below@,
                    x,
                    y,
                    zz,
                ) || cubs_contain_cell(above@, x, y, zz)),
        decreases cs@.len() - k,
    {
        let c = &cs[k];
        let ghost old_below = below@;
        let ghost old_above = above@;
        let ghost old_mb = mb;
        let ghost old_ma = ma;
        proof {
            assert(cs@.take(k as int + 1) =~= cs@.take(k as int).push(cs@[k as int]));
            lemma_cubs_cell_push(cs@.take(k as int), cs@[k as int]);
        }
        if c.z1() + (c.size_z() as i32) <= z {
            below.push(c.clone());
            proof {
                mb = mb.push(k as int);
                assert(below@ =~= old_below.push(cs@[k as int]));
                lemma_cubs_cell_push(old_below, cs@[k as int]);
                assert(below_part(cs@[k as int], z as int, below@[below@.len() - 1]));
                assert forall|x: int, y: int, zz: int| cs@[k as int].contains_cell(x, y, zz)
                    implies zz < z by {}
            }
        } else if z <= c.z1() {
            above.push(c.clone());
            proof {
                ma = ma.push(k as int);
                assert(above@ =~= old_above.push(cs@[k as int]));
                lemma_cubs_cell_push(old_above, cs@[k as int]);
                assert(above_part(cs@[k as int], z as int, above@[above@.len() - 1]));
            }
        } else {
            let below_c = Cuboid::new(
                Coordinate::new(c.x1(), c.y1(), c.z1()),
                c.size_x(),
                c.size_y(),
                (z - c.z1()) as usize,
            );
            let above_c = Cuboid::new(
                Coordinate::new(c.x1(), c.y1(), z),
                c.size_x(),
                c.size_y(),
                c.size_z() - ((z - c.z1()) as usize),
            );
            below.push(below_c);
            above.push(above_c);
            proof {
                mb = mb.push(k as int);
                ma = ma.push(k as int);
                assert(below@ =~= old_below.push(below_c));
                assert(above@ =~= old_above.push(above_c));
                lemma_cubs_cell_push(old_below, below_c);
                lemma_cubs_cell_push(old_above, above_c);
                assert(below_part(cs@[k as int], z as int, below_c));
                assert(above_part(cs@[k as int], z as int, above_c));
                assert(forall|x: int, y: int, zz: int|
                    #![trigger cs@[k as int].contains_cell(x, y, zz)]
                    cs@[k as int].contains_cell(x, y, zz) <==> (below_c.contains_cell(x, y, zz)
                        || above_c.contains_cell(x, y, zz)));
            }
        }
        proof {
            assert(forall|j: int| 0 <= j < old_mb.len() ==> #[trigger] mb[j] == old_mb[j]);
            assert(forall|j: int| 0 <= j < old_ma.len() ==> #[trigger] ma[j] == old_ma[j]);
            assert(forall|j: int| 0 <= j < old_below.len() ==> #[trigger] below@[j] == old_below[j]);
            assert(forall|j: int| 0 <= j < old_above.len() ==> #[trigger] above@[j] == old_above[j]);
            assert forall|j: int| 0 <= j < mb.len() implies below_part(
                cs@[#[trigger] mb[j]],
                z as int,
                below@[j],
            ) by {
                if j < old_mb.len() {
                    assert(below_part(cs@[old_mb[j]], z as int, old_below[j]));
                }
            }
            assert forall|j: int| 0 <= j < ma.len() implies above_part(
                cs@[#[trigger] ma[j]],
                z as int,
                above@[j],
            ) by {
                if j < old_ma.len() {
                    assert(above_part(cs@[old_ma[j]], z as int, old_above[j]));
                }
            }
            assert forall|i: int|
                0 <= i < k + 1 && contributes_below(#[trigger] cs@[i], z as int) implies exists|
                j: int,
            | 0 <= j < mb.len() && #[trigger] mb[j] == i by {
                if i < k {
                    let j = choose|j: int| 0 <= j < old_mb.len() && #[trigger] old_mb[j] == i;
                    assert(mb[j] == i);
                } else {
                    assert(mb[mb.len() - 1] == i);
                }
            }
            assert forall|i: int|
                0 <= i < k + 1 && contributes_above(#[trigger] cs@[i], z as int) implies exists|
                j: int,
            | 0 <= j < ma.len() && #[trigger] ma[j] == i by {
                if i < k {
                    let j = choose|j: int| 0 <= j < old_ma.len() && #[trigger] old_ma[j] == i;
                    assert(ma[j] == i);
                } else {
                    assert(ma[ma.len() - 1] == i);
                }
            }
        }
        k = k + 1;
    }
    proof {
        assert(cs@.take(cs@.len() as int) =~= cs@);
        assert(cut_map(cs@, z as int, below@, mb, false));
        assert(cut_map(cs@, z as int, above@, ma, true));
    }
    let ghost below_seq = below@;
    let ghost above_seq = above@;
    let below_prog = if below.len() == 0 {
        None
    } else {
        let bp = Program::new(ProgramFormat::Cuboid(below));
        proof {
            assert(bp.cubs() == below_seq);
            assert(cut_map(p.cubs(), z as int, bp.cubs(), mb, false));
        }
        Some(bp)
    };
    let above_prog = if above.len() == 0 {
        None
    } else {
        let ap = Program::new(ProgramFormat::Cuboid(above));
        proof {
            assert(ap.cubs() == above_seq);
            assert(cut_map(p.cubs(), z as int, ap.cubs(), ma, true));
        }
        Some(ap)
    };
    (below_prog, above_prog)
}

/// Overlapping programs must meet in the `z` axis: the ranges
/// `[z1s, z2s)` of the two programs intersect.
pub proof fn lemma_overlap_needs_z_intersection(p1: Program, p2: Program)
    requires
        p1.wf(),
        p2.wf(),
        programs_overlap(p1, p2),
    ensures
        p2.z2s() > p1.z1s(),
        p1.z2s() > p2.z1s(),
{
    if p1.is_polycube_spec() {
        if p2.is_polycube_spec() {
            let (i, j) = choose|i: int, j: int|
                0 <= i < p1.poly()@.len() && 0 <= j < p2.poly()@.len() && #[trigger] p1.poly()@[i]
                    == #[trigger] p2.poly()@[j];
            assert(p1.poly().min_z_spec() <= p1.poly()@[i].z <= p1.poly().max_z_spec());
            assert(p2.poly().min_z_spec() <= p2.poly()@[j].z <= p2.poly().max_z_spec());
        } else {
            let i = choose|i: int|
                0 <= i < p2.cubs().len() && polycube_cuboid_overlap(p1.poly(), #[trigger] p2.cubs()[i]);
            let c = p2.cubs()[i];
            let b = choose|b: int|
                0 <= b < p1.poly()@.len() && c.contains_cell(
                    (#[trigger] p1.poly()@[b]).x as int,
                    p1.poly()@[b].y as int,
                    p1.poly()@[b].z as int,
                );
            lemma_cubs_min_z1_bounds(p2.cubs());
            lemma_cubs_max_z2_bounds(p2.cubs());
            assert(p1.poly().min_z_spec() <= p1.poly()@[b].z <= p1.poly().max_z_spec());
            assert(cubs_min_z1(p2.cubs()) <= c.z1s());
            assert(c.z2s() <= cubs_max_z2(p2.cubs()));
        }
    } else {
        if p2.is_polycube_spec() {
            let i = choose|i: int|
                0 <= i < p1.cubs().len() && polycube_cuboid_overlap(p2.poly(), #[trigger] p1.cubs()[i]);
            let c = p1.cubs()[i];
            let b = choose|b: int|
                0 <= b < p2.poly()@.len() && c.contains_cell(
                    (#[trigger] p2.poly()@[b]).x as int,
                    p2.poly()@[b].y as int,
                    p2.poly()@[b].z as int,
                );
            lemma_cubs_min_z1_bounds(p1.cubs());
            lemma_cubs_max_z2_bounds(p1.cubs());
            assert(p2.poly().min_z_spec() <= p2.poly()@[b].z <= p2.poly().max_z_spec());
            assert(cubs_min_z1(p1.cubs()) <= c.z1s());
            assert(c.z2s() <= cubs_max_z2(p1.cubs()));
        } else {
            let (i, j) = choose|i: int, j: int|
                0 <= i < p1.cubs().len() && 0 <= j < p2.cubs().len() && #[trigger] cuboids_overlap(
                    p1.cubs()[i],
                    p2.cubs()[j],
                );
            lemma_cubs_min_z1_bounds(p1.cubs());
            lemma_cubs_max_z2_bounds(p1.cubs());
            lemma_cubs_min_z1_bounds(p2.cubs());
            lemma_cubs_max_z2_bounds(p2.cubs());
            assert(cubs_min_z1(p1.cubs()) <= p1.cubs()[i].z1s());
            assert(p1.cubs()[i].z2s() <= cubs_max_z2(p1.cubs()));
            assert(cubs_min_z1(p2.cubs()) <= p2.cubs()[j].z1s());
            assert(p2.cubs()[j].z2s() <= cubs_max_z2(p2.cubs()));
        }
    }
}

/// Two programs of the same format whose geometry agrees: equal cuboid
/// lists, or polycubes with the same cells and bounds.
pub open spec fn prog_equiv(a: Program, b: Program) -> bool {
    &&& a.is_polycube_spec() == b.is_polycube_spec()
    &&& a.is_cuboid_spec() == b.is_cuboid_spec()
    &&& a.is_polycube_spec() ==> crate::program::polycube::poly_equiv(a.poly(), b.poly())
    &&& a.is_cuboid_spec() ==> a.cubs() == b.cubs()
}

/// Equivalent programs agree on well-formedness, `z` extent, and overlap
/// with any third program.
pub proof fn lemma_prog_equiv_properties(a: Program, b: Program, q: Program)
    requires
        prog_equiv(a, b),
    ensures
        a.wf() == b.wf(),
        a.z1s() == b.z1s(),
        a.z2s() == b.z2s(),
        programs_overlap(a, q) == programs_overlap(b, q),
        programs_overlap(q, a) == programs_overlap(q, b),
{
    if a.is_polycube_spec() {
        let pa = a.poly();
        let pb = b.poly();
        assert(pa.bounds_wf() == pb.bounds_wf());
        if q.is_polycube_spec() {
            assert(polycubes_overlap(pa, q.poly()) == polycubes_overlap(pb, q.poly()));
            assert(polycubes_overlap(q.poly(), pa) == polycubes_overlap(q.poly(), pb));
        } else {
            assert forall|i: int| 0 <= i < q.cubs().len() implies polycube_cuboid_overlap(
                pa,
                #[trigger] q.cubs()[i],
            ) == polycube_cuboid_overlap(pb, q.cubs()[i]) by {}
            assert(polycube_cubs_overlap(pa, q.cubs()) == polycube_cubs_overlap(pb, q.cubs()));
        }
    }
}

impl Clone for ProgramFormat {
    fn clone(&self) -> (r: Self)
        ensures
            r is Polycube == *self is Polycube,
            r is Cuboid == *self is Cuboid,
            *self is Polycube ==> crate::program::polycube::poly_equiv(
                r->Polycube_0,
                self->Polycube_0,
            ),
            *self is Cuboid ==> r->Cuboid_0@ == self->Cuboid_0@,
    {
        match self {
            ProgramFormat::Polycube(p) => ProgramFormat::Polycube(p.clone()),
            ProgramFormat::Cuboid(cs) => {
                let mut out: Vec<Cuboid> = Vec::new();
                let mut i: usize = 0;
                while i < cs.len()
                    invariant
                        0 <= i <= cs@.len(),
                        out@ == cs@.take(i as int),
                    decreases cs@.len() - i,
                {
                    out.push(cs[i]);
                    proof {
                        assert(out@ =~= cs@.take(i as int + 1));
                    }
                    i = i + 1;
                }
                proof {
                    assert(out@ =~= cs@);
                }
                ProgramFormat::Cuboid(out)
            },
        }
    }
}

impl Clone for Program {
    fn clone(&self) -> (r: Self)
        ensures
            prog_equiv(r, *self),
    {
        Program { format: self.format.clone() }
    }
}

/// Geometric equivalence is transitive through a common middle program.
pub proof fn lemma_prog_equiv_trans(a: Program, b: Program, c: Program)
    requires
        prog_equiv(a, b),
        prog_equiv(c, b),
    ensures
        prog_equiv(a, c),
{
}

/// Overlap of programs is symmetric.
pub proof fn lemma_overlap_sym(a: Program, b: Program)
    ensures
        programs_overlap(a, b) == programs_overlap(b, a),
{
    if a.is_polycube_spec() && b.is_polycube_spec() {
        let pa = a.poly();
        let pb = b.poly();
        if polycubes_overlap(pa, pb) {
            let (i, j) = choose|i: int, j: int|
                0 <= i < pa@.len() && 0 <= j < pb@.len() && #[trigger] pa@[i] == #[trigger] pb@[j];
            assert(pb@[j] == pa@[i]);
            assert(polycubes_overlap(pb, pa));
        }
        if polycubes_overlap(pb, pa) {
            let (i, j) = choose|i: int, j: int|
                0 <= i < pb@.len() && 0 <= j < pa@.len() && #[trigger] pb@[i] == #[trigger] pa@[j];
            assert(pa@[j] == pb@[i]);
            assert(polycubes_overlap(pa, pb));
        }
    } else if !a.is_polycube_spec() && !b.is_polycube_spec() {
        let ca = a.cubs();
        let cb = b.cubs();
        if cubs_cubs_overlap(ca, cb) {
            let (i, j) = choose|i: int, j: int|
                0 <= i < ca.len() && 0 <= j < cb.len() && #[trigger] cuboids_overlap(ca[i], cb[j]);
            assert(cuboids_overlap(cb[j], ca[i]));
            assert(cubs_cubs_overlap(cb, ca));
        }
        if cubs_cubs_overlap(cb, ca) {
            let (i, j) = choose|i: int, j: int|
                0 <= i < cb.len() && 0 <= j < ca.len() && #[trigger] cuboids_overlap(cb[i], ca[j]);
            assert(cuboids_overlap(ca[j], cb[i]));
            assert(cubs_cubs_overlap(ca, cb));
        }
    }
}

} // verus!
