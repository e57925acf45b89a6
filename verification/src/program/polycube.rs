//! Coordinates and polycubes: a polycube is a list of unit cells with cached
//! axis-aligned bounds.

use vstd::prelude::*;

verus! {

/// A signed integer triple; `z` denotes a cycle index.
#[derive(Debug, Clone, Copy, PartialEq, Eq, Hash, Structural)]
pub struct Coordinate {
    pub x: i32,
    pub y: i32,
    pub z: i32,
}

impl Coordinate {
    pub fn new(x: i32, y: i32, z: i32) -> (r: Self)
        ensures
            r == (Coordinate { x, y, z }),
    {
        Self { x, y, z }
    }

    /// Componentwise addition.
    pub fn add(self, other: Self) -> (r: Self)
        requires
            i32::MIN <= self.x + other.x <= i32::MAX,
            i32::MIN <= self.y + other.y <= i32::MAX,
            i32::MIN <= self.z + other.z <= i32::MAX,
        ensures
            r.x == self.x + other.x,
            r.y == self.y + other.y,
            r.z == self.z + other.z,
    {
        Self { x: self.x + other.x, y: self.y + other.y, z: self.z + other.z }
    }
}

/// A set of unit cells with cached axis-aligned bounds. An empty polycube
/// carries the neutral bounds `i32::MAX` / `i32::MIN`.
#[derive(Debug, PartialEq, Eq)]
pub struct Polycube {
    blocks: Vec<Coordinate>,
    min_x: i32,
    min_y: i32,
    max_x: i32,
    max_y: i32,
    min_z: i32,
    max_z: i32,
}

impl View for Polycube {
    type V = Seq<Coordinate>;

    closed spec fn view(&self) -> Seq<Coordinate> {
        self.blocks@
    }
}

impl Polycube {
    pub closed spec fn min_x_spec(&self) -> int {
        self.min_x as int
    }

    pub closed spec fn max_x_spec(&self) -> int {
        self.max_x as int
    }

    pub closed spec fn min_y_spec(&self) -> int {
        self.min_y as int
    }

    pub closed spec fn max_y_spec(&self) -> int {
        self.max_y as int
    }

    pub closed spec fn min_z_spec(&self) -> int {
        self.min_z as int
    }

    pub closed spec fn max_z_spec(&self) -> int {
        self.max_z as int
    }

    /// The cached bounds are exactly the componentwise minima and maxima of
    /// the cells; an empty polycube carries the neutral bounds.
    pub open spec fn bounds_wf(&self) -> bool {
        &&& forall|i: int|
            0 <= i < self@.len() ==> {
                &&& self.min_x_spec() <= (#[trigger] self@[i]).x <= self.max_x_spec()
                &&& self.min_y_spec() <= self@[i].y <= self.max_y_spec()
                &&& self.min_z_spec() <= self@[i].z <= self.max_z_spec()
            }
        &&& self@.len() == 0 ==> {
            &&& self.min_x_spec() == i32::MAX && self.max_x_spec() == i32::MIN
            &&& self.min_y_spec() == i32::MAX && self.max_y_spec() == i32::MIN
            &&& self.min_z_spec() == i32::MAX && self.max_z_spec() == i32::MIN
        }
        &&& self@.len() > 0 ==> {
            &&& exists|i: int| 0 <= i < self@.len() && (#[trigger] self@[i]).x == self.min_x_spec()
            &&& exists|i: int| 0 <= i < self@.len() && (#[trigger] self@[i]).x == self.max_x_spec()
            &&& exists|i: int| 0 <= i < self@.len() && (#[trigger] self@[i]).y == self.min_y_spec()
            &&& exists|i: int| 0 <= i < self@.len() && (#[trigger] self@[i]).y == self.max_y_spec()
            &&& exists|i: int| 0 <= i < self@.len() && (#[trigger] self@[i]).z == self.min_z_spec()
            &&& exists|i: int| 0 <= i < self@.len() && (#[trigger] self@[i]).z == self.max_z_spec()
        }
    }

    pub fn new(blocks: Vec<Coordinate>) -> (r: Self)
        ensures
            r@ == blocks@,
            r.bounds_wf(),
    {
        let mut min_x: i32 = i32::MAX;
        let mut max_x: i32 = i32::MIN;
        let mut min_y: i32 = i32::MAX;
        let mut max_y: i32 = i32::MIN;
        let mut min_z: i32 = i32::MAX;
        let mut max_z: i32 = i32::MIN;
        let mut i: usize = 0;
        while i < blocks.len()
            invariant
                0 <= i <= blocks.len(),
                forall|j: int|
                    0 <= j < i ==> {
                        &&& min_x <= (#[trigger] blocks@[j]).x <= max_x
                        &&& min_y <= blocks@[j].y <= max_y
                        &&& min_z <= blocks@[j].z <= max_z
                    },
                i == 0 ==> {
                    &&& min_x == i32::MAX && max_x == i32::MIN
                    &&& min_y == i32::MAX && max_y == i32::MIN
                    &&& min_z == i32::MAX && max_z == i32::MIN
                },
                i > 0 ==> {
                    &&& exists|j: int| 0 <= j < i && (#[trigger] blocks@[j]).x == min_x
                    &&& exists|j: int| 0 <= j < i && (#[trigger] blocks@[j]).x == max_x
                    &&& exists|j: int| 0 <= j < i && (#[trigger] blocks@[j]).y == min_y
                    &&& exists|j: int| 0 <= j < i && (#[trigger] blocks@[j]).y == max_y
                    &&& exists|j: int| 0 <= j < i && (#[trigger] blocks@[j]).z == min_z
                    &&& exists|j: int| 0 <= j < i && (#[trigger] blocks@[j]).z == max_z
                },
            decreases blocks.len() - i,
        {
            let b = blocks[i];
            if b.x < min_x {
                min_x = b.x;
            }
            if b.x > max_x {
                max_x = b.x;
            }
            if b.y < min_y {
                min_y = b.y;
            }
            if b.y > max_y {
                max_y = b.y;
            }
            if b.z < min_z {
                min_z = b.z;
            }
            if b.z > max_z {
                max_z = b.z;
            }
            i = i + 1;
        }
        Self { blocks, min_x, min_y, max_x, max_y, min_z, max_z }
    }

    pub fn blocks(&self) -> (r: &Vec<Coordinate>)
        ensures
            r@ == self@,
    {
        &self.blocks
    }

    pub fn min_x(&self) -> (r: i32)
        ensures
            r == self.min_x_spec(),
    {
        self.min_x
    }

    pub fn max_x(&self) -> (r: i32)
        ensures
            r == self.max_x_spec(),
    {
        self.max_x
    }

    pub fn min_y(&self) -> (r: i32)
        ensures
            r == self.min_y_spec(),
    {
        self.min_y
    }

    pub fn max_y(&self) -> (r: i32)
        ensures
            r == self.max_y_spec(),
    {
        self.max_y
    }

    pub fn min_z(&self) -> (r: i32)
        ensures
            r == self.min_z_spec(),
    {
        self.min_z
    }

    pub fn max_z(&self) -> (r: i32)
        ensures
            r == self.max_z_spec(),
    {
        self.max_z
    }

    pub fn add_block(&mut self, coord: Coordinate)
        requires
            old(self).bounds_wf(),
        ensures
            final(self)@ == old(self)@.push(coord),
            final(self).bounds_wf(),
    {
        if coord.x < self.min_x {
            self.min_x = coord.x;
        }
        if coord.y < self.min_y {
            self.min_y = coord.y;
        }
        if coord.z < self.min_z {
            self.min_z = coord.z;
        }
        if coord.x > self.max_x {
            self.max_x = coord.x;
        }
        if coord.y > self.max_y {
            self.max_y = coord.y;
        }
        if coord.z > self.max_z {
            self.max_z = coord.z;
        }
        self.blocks.push(coord);
        proof {
            let n = old(self)@.len() as int;
            assert(self@[n] == coord);
            assert(forall|j: int| 0 <= j < n ==> self@[j] == old(self)@[j]);
            if !(coord.x < old(self).min_x_spec()) && n > 0 {
                let w = choose|i: int|
                    0 <= i < n && (#[trigger] old(self)@[i]).x == old(self).min_x_spec();
                assert(self@[w].x == self.min_x_spec());
            }
            if !(coord.x > old(self).max_x_spec()) && n > 0 {
                let w = choose|i: int|
                    0 <= i < n && (#[trigger] old(self)@[i]).x == old(self).max_x_spec();
                assert(self@[w].x == self.max_x_spec());
            }
            if !(coord.y < old(self).min_y_spec()) && n > 0 {
                let w = choose|i: int|
                    0 <= i < n && (#[trigger] old(self)@[i]).y == old(self).min_y_spec();
                assert(self@[w].y == self.min_y_spec());
            }
            if !(coord.y > old(self).max_y_spec()) && n > 0 {
                let w = choose|i: int|
                    0 <= i < n && (#[trigger] old(self)@[i]).y == old(self).max_y_spec();
                assert(self@[w].y == self.max_y_spec());
            }
            if !(coord.z < old(self).min_z_spec()) && n > 0 {
                let w = choose|i: int|
                    0 <= i < n && (#[trigger] old(self)@[i]).z == old(self).min_z_spec();
                assert(self@[w].z == self.min_z_spec());
            }
            if !(coord.z > old(self).max_z_spec()) && n > 0 {
                let w = choose|i: int|
                    0 <= i < n && (#[trigger] old(self)@[i]).z == old(self).max_z_spec();
                assert(self@[w].z == self.max_z_spec());
            }
        }
    }

    pub fn size(&self) -> (r: i32)
        requires
            self@.len() <= i32::MAX,
        ensures
            r == self@.len(),
    {
        self.blocks.len() as i32
    }

    pub fn index_to_xyz(&self, index: i32) -> (r: Coordinate)
        requires
            0 <= index < self@.len(),
        ensures
            r == self@[index as int],
    {
        self.blocks[index as usize]
    }
}

/// Two polycubes with the same cells and the same cached bounds.
pub open spec fn poly_equiv(a: Polycube, b: Polycube) -> bool {
    &&& a@ == b@
    &&& a.min_x_spec() == b.min_x_spec()
    &&& a.max_x_spec() == b.max_x_spec()
    &&& a.min_y_spec() == b.min_y_spec()
    &&& a.max_y_spec() == b.max_y_spec()
    &&& a.min_z_spec() == b.min_z_spec()
    &&& a.max_z_spec() == b.max_z_spec()
}

impl Clone for Polycube {
    fn clone(&self) -> (r: Self)
        ensures
            poly_equiv(r, *self),
    {
        let mut blocks: Vec<Coordinate> = Vec::new();
        let mut i: usize = 0;
        while i < self.blocks.len()
            invariant
                0 <= i <= self.blocks@.len(),
                blocks@ == self.blocks@.take(i as int),
            decreases self.blocks@.len() - i,
        {
            blocks.push(self.blocks[i]);
            proof {
                assert(blocks@ =~= self.blocks@.take(i as int + 1));
            }
            i = i + 1;
        }
        proof {
            assert(blocks@ =~= self.blocks@);
        }
        Polycube {
            blocks,
            min_x: self.min_x,
            min_y: self.min_y,
            max_x: self.max_x,
            max_y: self.max_y,
            min_z: self.min_z,
            max_z: self.max_z,
        }
    }
}

} // verus!
