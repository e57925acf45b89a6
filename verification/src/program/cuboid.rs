//! Axis-aligned cuboids: an origin plus non-negative sizes, occupying
//! `[x, x+sx) x [y, y+sy) x [z, z+sz)`.

use vstd::prelude::*;

use crate::program::polycube::{Coordinate, Polycube};

verus! {

#[derive(Debug, Clone, Copy, PartialEq, Eq, Structural)]
pub struct Cuboid {
    pos: Coordinate,
    size_x: usize,
    size_y: usize,
    size_z: usize,
}

impl Cuboid {
    pub closed spec fn pos_spec(&self) -> Coordinate {
        self.pos
    }

    pub closed spec fn sx(&self) -> nat {
        self.size_x as nat
    }

    pub closed spec fn sy(&self) -> nat {
        self.size_y as nat
    }

    pub closed spec fn sz(&self) -> nat {
        self.size_z as nat
    }

    pub open spec fn x1s(&self) -> int {
        self.pos_spec().x as int
    }

    pub open spec fn y1s(&self) -> int {
        self.pos_spec().y as int
    }

    pub open spec fn z1s(&self) -> int {
        self.pos_spec().z as int
    }

    pub open spec fn x2s(&self) -> int {
        self.x1s() + self.sx()
    }

    pub open spec fn y2s(&self) -> int {
        self.y1s() + self.sy()
    }

    pub open spec fn z2s(&self) -> int {
        self.z1s() + self.sz()
    }

    /// The sizes and the exclusive upper corner still fit in `i32`, so that
    /// the interval arithmetic on coordinates cannot overflow.
    pub open spec fn wf(&self) -> bool {
        &&& self.sx() <= i32::MAX
        &&& self.sy() <= i32::MAX
        &&& self.sz() <= i32::MAX
        &&& self.x2s() <= i32::MAX
        &&& self.y2s() <= i32::MAX
        &&& self.z2s() <= i32::MAX
    }

    /// The cell at `(x, y, z)` lies inside this cuboid.
    pub open spec fn contains_cell(&self, x: int, y: int, z: int) -> bool {
        &&& self.x1s() <= x < self.x2s()
        &&& self.y1s() <= y < self.y2s()
        &&& self.z1s() <= z < self.z2s()
    }

    pub fn new(pos: Coordinate, size_x: usize, size_y: usize, size_z: usize) -> (r: Self)
        requires
            size_x <= i32::MAX,
            size_y <= i32::MAX,
            size_z <= i32::MAX,
            pos.x + size_x <= i32::MAX,
            pos.y + size_y <= i32::MAX,
            pos.z + size_z <= i32::MAX,
        ensures
            r.pos_spec() == pos,
            r.sx() == size_x,
            r.sy() == size_y,
            r.sz() == size_z,
            r.wf(),
    {
        Cuboid { pos, size_x, size_y, size_z }
    }

    /// The axis-aligned bounding box of a non-empty polycube.
    pub fn from(item: &Polycube) -> (r: Self)
        requires
            item@.len() > 0,
            item.bounds_wf(),
            item.max_x_spec() < i32::MAX,
            item.max_y_spec() < i32::MAX,
            item.max_z_spec() < i32::MAX,
            item.max_x_spec() - item.min_x_spec() < i32::MAX,
            item.max_y_spec() - item.min_y_spec() < i32::MAX,
            item.max_z_spec() - item.min_z_spec() < i32::MAX,
        ensures
            r.x1s() == item.min_x_spec(),
            r.y1s() == item.min_y_spec(),
            r.z1s() == item.min_z_spec(),
            r.x2s() == item.max_x_spec() + 1,
            r.y2s() == item.max_y_spec() + 1,
            r.z2s() == item.max_z_spec() + 1,
            r.wf(),
    {
        proof {
            // a cell attains each minimum, so every span is positive
            assert(item.min_x_spec() <= item.max_x_spec());
            assert(item.min_y_spec() <= item.max_y_spec());
            assert(item.min_z_spec() <= item.max_z_spec());
        }
        Self {
            pos: Coordinate::new(item.min_x(), item.min_y(), item.min_z()),
            size_x: (item.max_x() - item.min_x() + 1) as usize,
            size_y: (item.max_y() - item.min_y() + 1) as usize,
            size_z: (item.max_z() - item.min_z() + 1) as usize,
        }
    }

    pub fn pos(&self) -> (r: &Coordinate)
        ensures
            r == self.pos_spec(),
    {
        &self.pos
    }

    pub fn x1(&self) -> (r: i32)
        ensures
            r == self.x1s(),
    {
        self.pos.x
    }

    pub fn x2(&self) -> (r: i32)
        requires
            self.wf(),
        ensures
            r == self.x2s(),
    {
        self.pos.x + (self.size_x as i32)
    }

    pub fn y1(&self) -> (r: i32)
        ensures
            r == self.y1s(),
    {
        self.pos.y
    }

    pub fn y2(&self) -> (r: i32)
        requires
            self.wf(),
        ensures
            r == self.y2s(),
    {
        self.pos.y + (self.size_y as i32)
    }

    pub fn z1(&self) -> (r: i32)
        ensures
            r == self.z1s(),
    {
        self.pos.z
    }

    pub fn z2(&self) -> (r: i32)
        requires
            self.wf(),
        ensures
            r == self.z2s(),
    {
        self.pos.z + (self.size_z as i32)
    }

    pub fn size_x(&self) -> (r: usize)
        ensures
            r == self.sx(),
    {
        self.size_x
    }

    pub fn size_y(&self) -> (r: usize)
        ensures
            r == self.sy(),
    {
        self.size_y
    }

    pub fn size_z(&self) -> (r: usize)
        ensures
            r == self.sz(),
    {
        self.size_z
    }

    pub fn update_x1(&mut self, x: i32)
        requires
            x + old(self).sx() <= i32::MAX,
        ensures
            final(self).pos_spec() == (Coordinate { x, ..old(self).pos_spec() }),
            final(self).sx() == old(self).sx(),
            final(self).sy() == old(self).sy(),
            final(self).sz() == old(self).sz(),
            old(self).wf() ==> final(self).wf(),
    {
        self.pos.x = x;
    }

    pub fn update_y1(&mut self, y: i32)
        requires
            y + old(self).sy() <= i32::MAX,
        ensures
            final(self).pos_spec() == (Coordinate { y, ..old(self).pos_spec() }),
            final(self).sx() == old(self).sx(),
            final(self).sy() == old(self).sy(),
            final(self).sz() == old(self).sz(),
            old(self).wf() ==> final(self).wf(),
    {
        self.pos.y = y;
    }

    /// A cuboid is determined by its origin and sizes.
    pub proof fn lemma_cuboid_eq(a: Cuboid, b: Cuboid)
        requires
            a.pos_spec() == b.pos_spec(),
            a.sx() == b.sx(),
            a.sy() == b.sy(),
            a.sz() == b.sz(),
        ensures
            a == b,
    {
    }

    /// A cuboid built by this library never carries a source polycube.
    pub fn original(&self) -> (r: Option<&Polycube>)
        ensures
            r is None,
    {
        None
    }
}

} // verus!
