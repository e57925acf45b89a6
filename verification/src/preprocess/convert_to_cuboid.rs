//! Approximate a polycube program by a bounded number of cuboids: the cells
//! are binned along `z` into `num_cuboids` equal slices, and each non-empty
//! bin is replaced by its bounding box.

use vstd::prelude::*;

use crate::preprocess::Preprocessor;
use crate::program::polycube::{Coordinate, Polycube};
use crate::program::{Cuboid, Program, ProgramFormat};

verus! {

/// The bin index of a cell at height `z`, among `k` bins over the extent
/// `[min_z, min_z + z_len)`, clamped into range.
pub open spec fn bin_of(z: int, min_z: int, z_len: int, k: int) -> int
    recommends
        z_len > 0,
        k > 0,
{
    let q = (k * (z - min_z)) / z_len;
    if q >= k {
        k - 1
    } else {
        q
    }
}

/// Some cuboid of the list contains the cell.
pub open spec fn covered_by(cs: Seq<Cuboid>, b: Coordinate) -> bool {
    exists|c: int|
        0 <= c < cs.len() && #[trigger] cs[c].contains_cell(b.x as int, b.y as int, b.z as int)
}

pub struct ConvertToCuboid {
    num_cuboids: u32,
}

impl ConvertToCuboid {
    pub closed spec fn num_cuboids_spec(&self) -> u32 {
        self.num_cuboids
    }

    pub fn new(num_cuboids: u32) -> (r: Self)
        ensures
            r.num_cuboids_spec() == num_cuboids,
    {
        Self { num_cuboids }
    }
}

impl Preprocessor for ConvertToCuboid {
    open spec fn process_requires(&self, program: &Program) -> bool {
        &&& program.wf()
        &&& self.num_cuboids_spec() >= 1
        &&& program.is_polycube_spec() ==> {
            let p = program.poly();
            &&& p.max_x_spec() < i32::MAX
            &&& p.max_y_spec() < i32::MAX
            &&& p.max_z_spec() < i32::MAX
            &&& p.max_x_spec() - p.min_x_spec() < i32::MAX
            &&& p.max_y_spec() - p.min_y_spec() < i32::MAX
            &&& p.max_z_spec() - p.min_z_spec() < i32::MAX
        }
    }

    open spec fn process_ensures(&self, program: &Program, r: &Program) -> bool {
        &&& r.wf()
        &&& program.is_cuboid_spec() ==> *r == *program
        &&& program.is_polycube_spec() ==> {
            &&& r.is_cuboid_spec()
            &&& 1 <= r.cubs().len() <= self.num_cuboids_spec()
            &&& forall|i: int|
                0 <= i < program.poly()@.len() ==> covered_by(
                    r.cubs(),
                    #[trigger] program.poly()@[i],
                )
            &&& forall|c: int|
                0 <= c < r.cubs().len() ==> {
                    &&& (#[trigger] r.cubs()[c]).x1s() >= program.poly().min_x_spec()
                    &&& r.cubs()[c].x2s() <= program.poly().max_x_spec() + 1
                    &&& r.cubs()[c].y1s() >= program.poly().min_y_spec()
                    &&& r.cubs()[c].y2s() <= program.poly().max_y_spec() + 1
                    &&& r.cubs()[c].z1s() >= program.poly().min_z_spec()
                    &&& r.cubs()[c].z2s() <= program.poly().max_z_spec() + 1
                    &&& r.cubs()[c].sx() >= 1 && r.cubs()[c].sy() >= 1 && r.cubs()[c].sz() >= 1
                }
        }
    }

    #[verifier::rlimit(100)]
    fn process(&self, program: Program) -> (r: Program) {
        let p = match program.format() {
            ProgramFormat::Cuboid(_) => {
                return program;
            },
            ProgramFormat::Polycube(p) => p,
        };
        proof {
            assert(program.format_spec() == ProgramFormat::Polycube(*p));
        }
        let blocks = p.blocks();
        let min_z_i: i32 = p.min_z();
        let ghost gz_len = p.max_z_spec() - p.min_z_spec() + 1;
        let z_len: u64 = (p.max_z() - min_z_i) as u64 + 1;
        let k: u64 = self.num_cuboids as u64;
        let n: usize = self.num_cuboids as usize;
        let mut cuboids: Vec<Cuboid> = Vec::new();
        let mut j: usize = 0;
        while j < n
            invariant
                0 <= j <= n,
                n == self.num_cuboids_spec(),
                k == self.num_cuboids_spec(),
                k >= 1,
                k <= u32::MAX,
                blocks@ == p@,
                program.is_polycube_spec(),
                *p == program.poly(),
                p.bounds_wf(),
                p@.len() > 0,
                p.max_x_spec() < i32::MAX,
                p.max_y_spec() < i32::MAX,
                p.max_z_spec() < i32::MAX,
                p.max_x_spec() - p.min_x_spec() < i32::MAX,
                p.max_y_spec() - p.min_y_spec() < i32::MAX,
                p.max_z_spec() - p.min_z_spec() < i32::MAX,
                min_z_i == p.min_z_spec(),
                gz_len == p.max_z_spec() - p.min_z_spec() + 1,
                z_len == gz_len,
                z_len >= 1,
                cuboids@.len() <= j,
                forall|c: int|
                    0 <= c < cuboids@.len() ==> {
                        &&& (#[trigger] cuboids@[c]).x1s() >= p.min_x_spec()
                        &&& cuboids@[c].x2s() <= p.max_x_spec() + 1
                        &&& cuboids@[c].y1s() >= p.min_y_spec()
                        &&& cuboids@[c].y2s() <= p.max_y_spec() + 1
                        &&& cuboids@[c].z1s() >= p.min_z_spec()
                        &&& cuboids@[c].z2s() <= p.max_z_spec() + 1
                        &&& cuboids@[c].sx() >= 1 && cuboids@[c].sy() >= 1 && cuboids@[c].sz()
                            >= 1
                        &&& cuboids@[c].wf()
                    },
                forall|i: int|
                    0 <= i < p@.len() && bin_of(
                        (#[trigger] p@[i]).z as int,
                        p.min_z_spec(),
                        gz_len,
                        self.num_cuboids_spec() as int,
                    ) < j ==> exists|c: int|
                        0 <= c < cuboids@.len() && #[trigger] cuboids@[c].contains_cell(
                            p@[i].x as int,
                            p@[i].y as int,
                            p@[i].z as int,
                        ),
            decreases n - j,
        {
            let mut bin_blocks: Vec<Coordinate> = Vec::new();
            let mut i: usize = 0;
            while i < blocks.len()
                invariant
                    0 <= i <= blocks@.len(),
                    blocks@ == p@,
                    p.bounds_wf(),
                    min_z_i == p.min_z_spec(),
                    gz_len == p.max_z_spec() - p.min_z_spec() + 1,
                    z_len == gz_len,
                    z_len >= 1,
                    p.max_z_spec() - p.min_z_spec() < i32::MAX,
                    k >= 1,
                    k == self.num_cuboids_spec(),
                    k <= u32::MAX,
                    0 <= j < n,
                    n == self.num_cuboids_spec(),
                    forall|l: int|
                        0 <= l < bin_blocks@.len() ==> exists|b: int|
                            0 <= b < p@.len() && #[trigger] bin_blocks@[l] == p@[b],
                    forall|b: int|
                        0 <= b < i && bin_of(
                            (#[trigger] p@[b]).z as int,
                            p.min_z_spec(),
                            gz_len,
                            self.num_cuboids_spec() as int,
                        ) == j ==> bin_blocks@.contains(p@[b]),
                decreases blocks@.len() - i,
            {
                let b = blocks[i];
                proof {
                    assert(p.min_z_spec() <= p@[i as int].z <= p.max_z_spec());
                }
                let d: u64 = (b.z - min_z_i) as u64;
                proof {
                    assert(k * d < 0x8000_0000_0000_0000u64) by (nonlinear_arith)
                        requires
                            k <= 0xFFFF_FFFFu64,
                            d < 0x8000_0000u64,
                    ;
                }
                let q: u64 = (k * d) / z_len;
                let bin: u64 = if q >= k {
                    k - 1
                } else {
                    q
                };
                proof {
                    assert(k * d == (k as int) * (b.z - p.min_z_spec()));
                    assert(bin == bin_of(
                        b.z as int,
                        p.min_z_spec(),
                        gz_len,
                        self.num_cuboids_spec() as int,
                    ));
                }
                let ghost old_bin_blocks = bin_blocks@;
                if bin == j as u64 {
                    bin_blocks.push(b);
                    proof {
                        assert(bin_blocks@[bin_blocks@.len() - 1] == p@[i as int]);
                        assert(bin_blocks@.contains(p@[i as int]));
                    }
                }
                proof {
                    assert forall|bb: int|
                        0 <= bb < i + 1 && bin_of(
                            (#[trigger] p@[bb]).z as int,
                            p.min_z_spec(),
                            gz_len,
                            self.num_cuboids_spec() as int,
                        ) == j implies bin_blocks@.contains(p@[bb]) by {
                        if bb < i {
                            assert(old_bin_blocks.contains(p@[bb]));
                            let l = choose|l: int|
                                0 <= l < old_bin_blocks.len() && old_bin_blocks[l] == p@[bb];
                            assert(bin_blocks@[l] == p@[bb]);
                        } else {
                            assert(bin == bin_of(
                                p@[bb].z as int,
                                p.min_z_spec(),
                                gz_len,
                                self.num_cuboids_spec() as int,
                            ));
                            assert(bin == j as u64);
                        }
                    }
                }
                i = i + 1;
            }
            let ghost old_cuboids = cuboids@;
            if bin_blocks.len() == 0 {
                proof {
                    assert forall|b: int|
                        0 <= b < p@.len() && bin_of(
                            (#[trigger] p@[b]).z as int,
                            p.min_z_spec(),
                            gz_len,
                            self.num_cuboids_spec() as int,
                        ) == j implies false by {
                        assert(bin_blocks@.contains(p@[b]));
                    }
                }
            }
            if bin_blocks.len() > 0 {
                let bin_poly = Polycube::new(bin_blocks);
                proof {
                    // the bin's bounds lie within the global bounds, because
                    // each attained bound belongs to an original cell
                    let lx = choose|l: int|
                        0 <= l < bin_poly@.len() && (#[trigger] bin_poly@[l]).x
                            == bin_poly.min_x_spec();
                    let hx = choose|l: int|
                        0 <= l < bin_poly@.len() && (#[trigger] bin_poly@[l]).x
                            == bin_poly.max_x_spec();
                    let ly = choose|l: int|
                        0 <= l < bin_poly@.len() && (#[trigger] bin_poly@[l]).y
                            == bin_poly.min_y_spec();
                    let hy = choose|l: int|
                        0 <= l < bin_poly@.len() && (#[trigger] bin_poly@[l]).y
                            == bin_poly.max_y_spec();
                    let lz = choose|l: int|
                        0 <= l < bin_poly@.len() && (#[trigger] bin_poly@[l]).z
                            == bin_poly.min_z_spec();
                    let hz = choose|l: int|
                        0 <= l < bin_poly@.len() && (#[trigger] bin_poly@[l]).z
                            == bin_poly.max_z_spec();
                    assert(p.min_x_spec() <= bin_poly.min_x_spec());
                    assert(bin_poly.max_x_spec() <= p.max_x_spec());
                    assert(p.min_y_spec() <= bin_poly.min_y_spec());
                    assert(bin_poly.max_y_spec() <= p.max_y_spec());
                    assert(p.min_z_spec() <= bin_poly.min_z_spec());
                    assert(bin_poly.max_z_spec() <= p.max_z_spec());
                }
                let c = Cuboid::from(&bin_poly);
                cuboids.push(c);
                proof {
                    assert(forall|ci: int|
                        0 <= ci < old_cuboids.len() ==> #[trigger] cuboids@[ci]
                            == old_cuboids[ci]);
                    assert forall|b: int|
                        0 <= b < p@.len() && bin_of(
                            (#[trigger] p@[b]).z as int,
                            p.min_z_spec(),
                            gz_len,
                            self.num_cuboids_spec() as int,
                        ) < j + 1 implies exists|ci: int|
                        0 <= ci < cuboids@.len() && #[trigger] cuboids@[ci].contains_cell(
                            p@[b].x as int,
                            p@[b].y as int,
                            p@[b].z as int,
                        ) by {
                        let bv = bin_of(
                            p@[b].z as int,
                            p.min_z_spec(),
                            gz_len,
                            self.num_cuboids_spec() as int,
                        );
                        if bv == j {
                            assert(bin_blocks@.contains(p@[b]));
                            assert(bin_poly@.contains(p@[b]));
                            let l = choose|l: int|
                                0 <= l < bin_poly@.len() && bin_poly@[l] == p@[b];
                            assert(bin_poly.min_x_spec() <= p@[b].x <= bin_poly.max_x_spec());
                            assert(cuboids@[cuboids@.len() - 1].contains_cell(
                                p@[b].x as int,
                                p@[b].y as int,
                                p@[b].z as int,
                            ));
                        } else {
                            assert(bv < j);
                            assert(exists|ci: int|
                                0 <= ci < old_cuboids.len()
                                    && #[trigger] old_cuboids[ci].contains_cell(
                                    p@[b].x as int,
                                    p@[b].y as int,
                                    p@[b].z as int,
                                ));
                            let ci = choose|ci: int|
                                0 <= ci < old_cuboids.len()
                                    && #[trigger] old_cuboids[ci].contains_cell(
                                    p@[b].x as int,
                                    p@[b].y as int,
                                    p@[b].z as int,
                                );
                            assert(cuboids@[ci].contains_cell(
                                p@[b].x as int,
                                p@[b].y as int,
                                p@[b].z as int,
                            ));
                        }
                    }
                }
            }
            j = j + 1;
        }
        proof {
            // every cell's bin index lies below `num_cuboids`
            assert forall|i: int| 0 <= i < p@.len() implies bin_of(
                (#[trigger] p@[i]).z as int,
                p.min_z_spec(),
                gz_len,
                self.num_cuboids_spec() as int,
            ) < n by {
                let kk = self.num_cuboids_spec() as int;
                let d = p@[i].z - p.min_z_spec();
                assert(0 <= d);
                assert((kk * d) / gz_len >= 0) by (nonlinear_arith)
                    requires
                        kk >= 1,
                        d >= 0,
                        gz_len >= 1,
                ;
            }
            assert(cuboids@.len() >= 1) by {
                assert(bin_of(
                    p@[0].z as int,
                    p.min_z_spec(),
                    gz_len,
                    self.num_cuboids_spec() as int,
                ) < n);
            }
        }
        let result = Program::new(ProgramFormat::Cuboid(cuboids));
        proof {
            assert(result.format_spec() == ProgramFormat::Cuboid(cuboids));
            assert(result.cubs() == cuboids@);
            assert forall|i: int| 0 <= i < p@.len() implies covered_by(
                result.cubs(),
                #[trigger] p@[i],
            ) by {
                let c = choose|c: int|
                    0 <= c < cuboids@.len() && #[trigger] cuboids@[c].contains_cell(
                        p@[i].x as int,
                        p@[i].y as int,
                        p@[i].z as int,
                    );
                assert(result.cubs()[c].contains_cell(p@[i].x as int, p@[i].y as int, p@[i].z as int));
            }
            assert(result.wf());
            assert(*p == program.poly());
            assert(forall|c: int|
                0 <= c < result.cubs().len() ==> {
                    &&& (#[trigger] result.cubs()[c]).x1s() >= program.poly().min_x_spec()
                    &&& result.cubs()[c].x2s() <= program.poly().max_x_spec() + 1
                    &&& result.cubs()[c].y1s() >= program.poly().min_y_spec()
                    &&& result.cubs()[c].y2s() <= program.poly().max_y_spec() + 1
                    &&& result.cubs()[c].z1s() >= program.poly().min_z_spec()
                    &&& result.cubs()[c].z2s() <= program.poly().max_z_spec() + 1
                    &&& result.cubs()[c].sx() >= 1 && result.cubs()[c].sy() >= 1
                        && result.cubs()[c].sz() >= 1
                });
            assert forall|i: int| 0 <= i < program.poly()@.len() implies covered_by(
                result.cubs(),
                #[trigger] program.poly()@[i],
            ) by {
                assert(p@[i] == program.poly()@[i]);
                assert(covered_by(result.cubs(), p@[i]));
            }
        }
        result
    }
}

} // verus!
