//! The fabric state: issued and running programs, the global clock and
//! program counter, the suspension map, and on-line defragmentation.

use vstd::prelude::*;

use crate::config::SimulationConfig;
use crate::program::polycube::poly_equiv;
use crate::program::{
    cut_program_at_z, is_overlap, prog_equiv, programs_overlap, Coordinate, Cuboid, Program,
    ProgramCounter, ProgramFormat,
};

verus! {

/// Every cell of the program lies inside `[0, size_x) x [0, size_y) x [0, inf)`.
pub open spec fn in_range(p: Program, size_x: int, size_y: int) -> bool {
    match p.format_spec() {
        ProgramFormat::Polycube(poly) => forall|i: int|
            0 <= i < poly@.len() ==> {
                &&& 0 <= (#[trigger] poly@[i]).x < size_x
                &&& 0 <= poly@[i].y < size_y
                &&& 0 <= poly@[i].z
            },
        ProgramFormat::Cuboid(cs) => forall|i: int|
            0 <= i < cs@.len() ==> {
                &&& 0 <= (#[trigger] cs@[i]).x1s() && cs@[i].x2s() <= size_x
                &&& 0 <= cs@[i].y1s() && cs@[i].y2s() <= size_y
                &&& 0 <= cs@[i].z1s()
            },
    }
}

/// No two distinct programs of the list overlap.
pub open spec fn progs_disjoint(ps: Seq<Program>) -> bool {
    forall|i: int, j: int|
        0 <= i < ps.len() && 0 <= j < ps.len() && i != j ==> !(#[trigger] programs_overlap(
            ps[i],
            ps[j],
        ))
}

/// Some element of the list is geometrically the same program as `p`.
pub open spec fn contains_equiv(ps: Seq<Program>, p: Program) -> bool {
    exists|j: int| 0 <= j < ps.len() && prog_equiv(#[trigger] ps[j], p)
}

pub struct Environment {
    config: SimulationConfig,
    /// All programs assigned by a scheduler.
    issued_programs: Vec<Program>,
    /// All programs whose execution has not yet finished.
    running_programs: Vec<Program>,
    /// The maximum `z` position of issued programs, exclusive.
    end_pc: u64,
    /// The global time in cycles; it can run ahead of the program counter
    /// while execution is suspended.
    current_time: u64,
    /// The global program counter (the `z` cursor) in cycles.
    program_counter: u64,
    /// Suspension entries `(point, until)`, strictly sorted by point.
    suspend_until: Vec<(u64, u64)>,
    /// Candidate planes for the next defragmentation, strictly sorted.
    next_defrag_cands: Vec<u64>,
    last_defrag_point: u64,
    defrag_cost_sum: u64,
    defrag_move_areas: Vec<Cuboid>,
}

impl Environment {
    pub closed spec fn config_spec(&self) -> SimulationConfig {
        self.config
    }

    pub closed spec fn issued(&self) -> Seq<Program> {
        self.issued_programs@
    }

    pub closed spec fn running(&self) -> Seq<Program> {
        self.running_programs@
    }

    pub closed spec fn end_pc_spec(&self) -> u64 {
        self.end_pc
    }

    pub closed spec fn time_spec(&self) -> u64 {
        self.current_time
    }

    pub closed spec fn pc_spec(&self) -> u64 {
        self.program_counter
    }

    pub closed spec fn susp(&self) -> Seq<(u64, u64)> {
        self.suspend_until@
    }

    pub closed spec fn cands(&self) -> Seq<u64> {
        self.next_defrag_cands@
    }

    pub closed spec fn ldp_spec(&self) -> u64 {
        self.last_defrag_point
    }

    pub closed spec fn cost_spec(&self) -> u64 {
        self.defrag_cost_sum
    }

    pub closed spec fn moves(&self) -> Seq<Cuboid> {
        self.defrag_move_areas@
    }

    pub open spec fn size_x_spec(&self) -> int {
        self.config_spec().size_x as int
    }

    pub open spec fn size_y_spec(&self) -> int {
        self.config_spec().size_y as int
    }

    /// The structural invariant of the fabric state.
    pub open spec fn wf(&self) -> bool {
        &&& self.config_spec().wf()
        &&& self.pc_spec() <= self.time_spec()
        &&& forall|i: int|
            0 <= i < self.issued().len() ==> (#[trigger] self.issued()[i]).wf() && in_range(
                self.issued()[i],
                self.size_x_spec(),
                self.size_y_spec(),
            )
        &&& forall|i: int|
            0 <= i < self.running().len() ==> (#[trigger] self.running()[i]).wf() && in_range(
                self.running()[i],
                self.size_x_spec(),
                self.size_y_spec(),
            )
        &&& forall|i: int|
            0 <= i < self.running().len() ==> contains_equiv(
                self.issued(),
                #[trigger] self.running()[i],
            )
        &&& forall|i: int|
            0 <= i < self.issued().len() && (#[trigger] self.issued()[i]).z2s() > self.pc_spec()
                ==> contains_equiv(self.running(), self.issued()[i])
        &&& forall|i: int| 0 <= i < self.issued().len() ==> (#[trigger] self.issued()[i]).z2s() <= self.end_pc_spec()
        &&& self.issued().len() == 0 ==> self.end_pc_spec() == 0
        &&& self.issued().len() > 0 ==> exists|i: int|
            0 <= i < self.issued().len() && (#[trigger] self.issued()[i]).z2s()
                == self.end_pc_spec()
        &&& forall|i: int| 0 <= i < self.susp().len() ==> (#[trigger] self.susp()[i]).0 >= self.pc_spec()
        &&& forall|i: int, j: int|
            0 <= i < j < self.susp().len() ==> (#[trigger] self.susp()[i]).0 < (
            #[trigger] self.susp()[j]).0
        &&& forall|i: int, j: int|
            0 <= i < j < self.cands().len() ==> #[trigger] self.cands()[i] < #[trigger] self.cands()[j]
        &&& forall|i: int| 0 <= i < self.cands().len() ==> #[trigger] self.cands()[i] > self.ldp_spec()
        &&& forall|i: int|
            0 <= i < self.moves().len() ==> {
                &&& (#[trigger] self.moves()[i]).wf()
                &&& self.moves()[i].sz() == 0
                &&& self.moves()[i].x1s() >= 0
                &&& self.moves()[i].y1s() >= 0
                &&& self.moves()[i].z1s() >= 0
            }
    }

    /// No two distinct issued programs overlap.
    pub open spec fn issued_disjoint(&self) -> bool {
        progs_disjoint(self.issued())
    }

    /// Every issued program is a single cuboid with positive sizes: the shape
    /// defragmentation supports.
    pub open spec fn issued_single_cuboids(&self) -> bool {
        forall|i: int|
            0 <= i < self.issued().len() ==> {
                &&& (#[trigger] self.issued()[i]).is_cuboid_spec()
                &&& self.issued()[i].cubs().len() == 1
                &&& self.issued()[i].cubs()[0].sx() >= 1
                &&& self.issued()[i].cubs()[0].sy() >= 1
                &&& self.issued()[i].cubs()[0].sz() >= 1
            }
    }

    /// Every running program's extent ends beyond the program counter:
    /// `running = { p in issued : max_z_exclusive > pc }` together with the
    /// membership clauses of `wf`.
    pub open spec fn running_live(&self) -> bool {
        forall|i: int|
            0 <= i < self.running().len() ==> (#[trigger] self.running()[i]).z2s()
                > self.pc_spec()
    }

    pub fn new(config: SimulationConfig) -> (r: Self)
        requires
            config.wf(),
        ensures
            r.wf(),
            r.issued_disjoint(),
            r.issued_single_cuboids(),
            r.running_live(),
            r.issued().len() == 0,
            r.running().len() == 0,
            r.end_pc_spec() == 0,
            r.time_spec() == 0,
            r.pc_spec() == 0,
            r.susp().len() == 0,
            r.cands().len() == 0,
            r.ldp_spec() == 0,
            r.cost_spec() == 0,
            r.moves().len() == 0,
            r.config_spec() == config,
    {
        Self {
            config,
            issued_programs: Vec::new(),
            running_programs: Vec::new(),
            end_pc: 0,
            current_time: 0,
            program_counter: 0,
            suspend_until: Vec::new(),
            next_defrag_cands: Vec::new(),
            last_defrag_point: 0,
            defrag_cost_sum: 0,
            defrag_move_areas: Vec::new(),
        }
    }

    /// Whether `p` lies inside the fabric's `x`/`y` extent at non-negative `z`.
#[verifier::spinoff_prover]
        pub fn is_in_range(&self, p: &Program) -> (r: bool)
        requires
            self.wf(),
            p.wf(),
        ensures
            r == in_range(*p, self.size_x_spec(), self.size_y_spec()),
    {
        let size_x = self.config.size_x as i32;
        let size_y = self.config.size_y as i32;
        match p.format() {
            ProgramFormat::Polycube(polycube) => {
                proof {
                    assert(p.format_spec() == ProgramFormat::Polycube(*polycube));
                }
                let blocks = polycube.blocks();
                let mut i: usize = 0;
                while i < blocks.len()
                    invariant
                        0 <= i <= blocks@.len(),
                        blocks@ == polycube@,
                        p.is_polycube_spec(),
                        *polycube == p.poly(),
                        size_x == self.size_x_spec(),
                        size_y == self.size_y_spec(),
                        forall|j: int|
                            0 <= j < i ==> {
                                &&& 0 <= (#[trigger] polycube@[j]).x < size_x
                                &&& 0 <= polycube@[j].y < size_y
                                &&& 0 <= polycube@[j].z
                            },
                    decreases blocks@.len() - i,
                {
                    let b = blocks[i];
                    if !(0 <= b.x && b.x < size_x && 0 <= b.y && b.y < size_y && 0 <= b.z) {
                        return false;
                    }
                    i = i + 1;
                }
                true
            },
            ProgramFormat::Cuboid(cs) => {
                proof {
                    assert(p.format_spec() == ProgramFormat::Cuboid(*cs));
                    assert forall|j: int| 0 <= j < cs@.len() implies (#[trigger] cs@[j]).wf() by {
                        assert(p.cubs()[j].wf());
                    }
                }
                let mut i: usize = 0;
                while i < cs.len()
                    invariant
                        0 <= i <= cs@.len(),
                        p.is_cuboid_spec(),
                        cs@ == p.cubs(),
                        size_x == self.size_x_spec(),
                        size_y == self.size_y_spec(),
                        forall|j: int| 0 <= j < cs@.len() ==> (#[trigger] cs@[j]).wf(),
                        forall|j: int|
                            0 <= j < i ==> {
                                &&& 0 <= (#[trigger] cs@[j]).x1s() && cs@[j].x2s() <= size_x
                                &&& 0 <= cs@[j].y1s() && cs@[j].y2s() <= size_y
                                &&& 0 <= cs@[j].z1s()
                            },
                    decreases cs@.len() - i,
                {
                    let c = &cs[i];
                    if !(0 <= c.x1() && c.x2() <= size_x && 0 <= c.y1() && c.y2() <= size_y && 0
                        <= c.z1()) {
                        return false;
                    }
                    i = i + 1;
                }
                true
            },
        }
    }

    /// `p` can be issued: in range and not overlapping any running program.
    pub open spec fn can_issue_spec(&self, p: Program) -> bool {
        &&& in_range(p, self.size_x_spec(), self.size_y_spec())
        &&& forall|i: int|
            0 <= i < self.running().len() ==> !programs_overlap(p, #[trigger] self.running()[i])
    }

#[verifier::spinoff_prover]
        pub fn can_issue(&self, p: &Program) -> (r: bool)
        requires
            self.wf(),
            p.wf(),
        ensures
            r == self.can_issue_spec(*p),
    {
        let in_r = self.is_in_range(p);
        if !in_r {
            return false;
        }
        let mut i: usize = 0;
        while i < self.running_programs.len()
            invariant
                0 <= i <= self.running().len(),
                self.wf(),
                p.wf(),
                forall|j: int| 0 <= j < i ==> !programs_overlap(*p, #[trigger] self.running()[j]),
            decreases self.running().len() - i,
        {
            if is_overlap(p, &self.running_programs[i]) {
                return false;
            }
            i = i + 1;
        }
        true
    }

    /// Issue `p`: if it can be issued, append it to the issued and running
    /// sets, raise `end_pc`, and record a defragmentation candidate plane.
    /// Non-overlap of the issued set is preserved whenever the placement does
    /// not start below the current program counter.
    #[verifier::spinoff_prover]
    #[verifier::rlimit(100)]
    pub fn issue_program(&mut self, p: &Program) -> (r: bool)
        requires
            old(self).wf(),
            p.wf(),
        ensures
            r == old(self).can_issue_spec(*p),
            final(self).wf(),
            final(self).config_spec() == old(self).config_spec(),
            final(self).time_spec() == old(self).time_spec(),
            final(self).pc_spec() == old(self).pc_spec(),
            final(self).susp() == old(self).susp(),
            final(self).ldp_spec() == old(self).ldp_spec(),
            final(self).cost_spec() == old(self).cost_spec(),
            final(self).moves() == old(self).moves(),
            !r ==> *final(self) == *old(self),
            r ==> {
                &&& final(self).issued().len() == old(self).issued().len() + 1
                &&& forall|i: int|
                    0 <= i < old(self).issued().len() ==> final(self).issued()[i] == #[trigger] old(self).issued()[i]
                &&& prog_equiv(final(self).issued()[old(self).issued().len() as int], *p)
                &&& final(self).running().len() == old(self).running().len() + 1
                &&& forall|i: int|
                    0 <= i < old(self).running().len() ==> final(self).running()[i]
                        == #[trigger] old(self).running()[i]
                &&& prog_equiv(final(self).running()[old(self).running().len() as int], *p)
                &&& final(self).end_pc_spec() == if p.z2s() > old(self).end_pc_spec() {
                    p.z2s()
                } else {
                    old(self).end_pc_spec() as int
                }
            },
            r && old(self).issued_disjoint() && p.z1s() >= old(self).pc_spec() ==> final(self).issued_disjoint(),
            r && old(self).running_live() && p.z2s() > old(self).pc_spec() ==> final(self).running_live(),
            r ==> forall|x: u64|
                final(self).cands().contains(x) <==> (old(self).cands().contains(x) || (x
                    == p.z2s() && p.z2s() > old(self).ldp_spec())),
            old(self).issued_single_cuboids() && p.is_cuboid_spec() && p.cubs().len() == 1
                && p.cubs()[0].sx() >= 1 && p.cubs()[0].sy() >= 1 && p.cubs()[0].sz() >= 1 ==> final(self).issued_single_cuboids(),
    {
        let can = self.can_issue(p);
        if !can {
            return false;
        }
        let ghost old_env = *self;
        let p1 = p.clone();
        let p2 = p.clone();
        proof {
            crate::program::lemma_prog_equiv_properties(p1, *p, *p);
            crate::program::lemma_prog_equiv_properties(p2, *p, *p);
        }
        proof {
            Self::lemma_in_range_z1_nonneg(*p, self.size_x_spec(), self.size_y_spec());
        }
        // raise end_pc to cover the new program
        let z2 = Self::program_z2(p);
        if z2 > self.end_pc {
            self.end_pc = z2;
        }
        // record a defragmentation candidate beyond the last defrag plane
        if z2 > self.last_defrag_point {
            proof {
                assert(self.cands() == old(self).cands());
                assert forall|i: int, j: int|
                    0 <= i < j < self.cands().len() implies #[trigger] self.cands()[i]
                        < #[trigger] self.cands()[j] by {
                    assert(old(self).cands()[i] < old(self).cands()[j]);
                }
            }
            self.insert_cand(z2);
        }
        proof {
            assert forall|x: u64| self.cands().contains(x) <==> (old_env.cands().contains(x) || (x
                == p.z2s() && p.z2s() > old_env.ldp_spec())) by {
                if z2 > old_env.ldp_spec() {
                } else {
                    assert(self.cands() == old_env.cands());
                }
            }
        }
        self.issued_programs.push(p1);
        self.running_programs.push(p2);
        proof {
            let n = old_env.issued().len() as int;
            let m = old_env.running().len() as int;
            assert(self.issued() =~= old_env.issued().push(self.issued()[n]));
            assert(self.running() =~= old_env.running().push(self.running()[m]));
            assert forall|i: int| 0 <= i < self.cands().len() implies #[trigger] self.cands()[i]
                > self.ldp_spec() by {
                assert(self.cands().contains(self.cands()[i]));
                if old_env.cands().contains(self.cands()[i]) {
                    let j = choose|j: int|
                        0 <= j < old_env.cands().len() && old_env.cands()[j] == self.cands()[i];
                    assert(old_env.cands()[j] > old_env.ldp_spec());
                }
            }
            assert(self.issue_frame(old_env, *p));
            Self::lemma_push_ranges(
                self.issued(),
                old_env.issued(),
                *p,
                self.size_x_spec(),
                self.size_y_spec(),
            );
            Self::lemma_push_ranges(
                self.running(),
                old_env.running(),
                *p,
                self.size_x_spec(),
                self.size_y_spec(),
            );
            self.lemma_issue_membership(old_env, *p);
            self.lemma_issue_misc(old_env, *p);
            assert(self.wf());
            if old_env.issued_disjoint() && p.z1s() >= old_env.pc_spec() {
                self.lemma_issue_disjoint(old_env, *p);
            }
            if old_env.running_live() && p.z2s() > old_env.pc_spec() {
                assert forall|i: int| 0 <= i < self.running().len() implies (
                #[trigger] self.running()[i]).z2s() > self.pc_spec() by {
                    if i < m {
                        assert(old_env.running()[i].z2s() > old_env.pc_spec());
                    } else {
                        crate::program::lemma_prog_equiv_properties(self.running()[m], *p, *p);
                    }
                }
            }
        }
        true
    }

    /// The exclusive `z` bound of a program, as a `u64`.
    fn program_z2(p: &Program) -> (r: u64)
        requires
            p.wf(),
            p.z1s() >= 0,
        ensures
            r == p.z2s(),
    {
        match p.format() {
            ProgramFormat::Polycube(poly) => {
                proof {
                    assert(p.format_spec() == ProgramFormat::Polycube(*poly));
                    assert(poly.min_z_spec() <= poly.max_z_spec());
                }
                (poly.max_z() as u64) + 1
            },
            ProgramFormat::Cuboid(cs) => {
                proof {
                    assert(p.format_spec() == ProgramFormat::Cuboid(*cs));
                    crate::program::lemma_cubs_min_z1_bounds(cs@);
                    assert forall|j: int| 0 <= j < cs@.len() implies (#[trigger] cs@[j]).wf()
                        && cs@[j].z1s() >= 0 by {
                        assert(p.cubs()[j].wf());
                        assert(crate::program::cubs_min_z1(cs@) <= cs@[j].z1s());
                    }
                    crate::program::lemma_cubs_max_z2_bounds(cs@);
                }
                let mut best: u64 = cs[0].z2() as u64;
                let mut i: usize = 1;
                while i < cs.len()
                    invariant
                        1 <= i <= cs@.len(),
                        forall|j: int|
                            0 <= j < cs@.len() ==> (#[trigger] cs@[j]).wf() && cs@[j].z1s() >= 0,
                        forall|j: int| 0 <= j < i ==> (#[trigger] cs@[j]).z2s() <= best,
                        exists|j: int| 0 <= j < i && (#[trigger] cs@[j]).z2s() == best,
                    decreases cs@.len() - i,
                {
                    let v: u64 = cs[i].z2() as u64;
                    if v > best {
                        best = v;
                    }
                    i = i + 1;
                }
                proof {
                    let j = choose|j: int| 0 <= j < cs@.len() && (#[trigger] cs@[j]).z2s() == best;
                    let k = choose|k: int|
                        0 <= k < cs@.len() && (#[trigger] cs@[k]).z2s() == crate::program::cubs_max_z2(cs@);
                    assert(best == crate::program::cubs_max_z2(cs@));
                }
                best
            },
        }
    }

    /// Geometrically equal programs are issuable in the same states.
    pub proof fn lemma_can_issue_equiv(&self, a: Program, b: Program)
        requires
            prog_equiv(a, b),
        ensures
            self.can_issue_spec(a) == self.can_issue_spec(b),
    {
        Self::lemma_equiv_in_range_pub(a, b, self.size_x_spec(), self.size_y_spec());
        Self::lemma_equiv_in_range_pub(b, a, self.size_x_spec(), self.size_y_spec());
        assert forall|i: int| 0 <= i < self.running().len() implies programs_overlap(
            a,
            #[trigger] self.running()[i],
        ) == programs_overlap(b, self.running()[i]) by {
            crate::program::lemma_prog_equiv_properties(a, b, self.running()[i]);
        }
    }

    /// An equivalent program occupies the same range (both directions).
    proof fn lemma_equiv_in_range_pub(a: Program, b: Program, sx: int, sy: int)
        requires
            prog_equiv(a, b),
        ensures
            in_range(a, sx, sy) == in_range(b, sx, sy),
    {
        if a.is_polycube_spec() {
            assert(a.poly()@ == b.poly()@);
        } else {
            assert(a.cubs() == b.cubs());
        }
    }

    /// A program's extent ends no earlier than it starts.
    proof fn lemma_z2s_ge_z1s(p: Program)
        requires
            p.wf(),
        ensures
            p.z2s() >= p.z1s(),
    {
        if p.is_polycube_spec() {
            let poly = p.poly();
            assert(poly.min_z_spec() <= poly.max_z_spec());
        } else {
            crate::program::lemma_cubs_min_z1_bounds(p.cubs());
            crate::program::lemma_cubs_max_z2_bounds(p.cubs());
            assert(crate::program::cubs_min_z1(p.cubs()) <= p.cubs()[0].z1s());
            assert(p.cubs()[0].z2s() <= crate::program::cubs_max_z2(p.cubs()));
        }
    }

    /// A program inside the fabric starts at a non-negative `z`.
    pub proof fn lemma_in_range_z1_nonneg(p: Program, sx: int, sy: int)
        requires
            p.wf(),
            in_range(p, sx, sy),
        ensures
            p.z1s() >= 0,
    {
        if p.is_polycube_spec() {
            let poly = p.poly();
            let i = choose|i: int|
                0 <= i < poly@.len() && (#[trigger] poly@[i]).z == poly.min_z_spec();
            assert(0 <= poly@[i].z);
        } else {
            crate::program::lemma_cubs_min_z1_bounds(p.cubs());
            let i = choose|i: int|
                0 <= i < p.cubs().len() && (#[trigger] p.cubs()[i]).z1s() == crate::program::cubs_min_z1(
                    p.cubs(),
                );
            assert(p.cubs()[i].z1s() >= 0);
        }
    }

    /// Insert a candidate plane, keeping the list strictly sorted.
#[verifier::spinoff_prover]
        fn insert_cand(&mut self, v: u64)
        requires
            forall|i: int, j: int|
                0 <= i < j < old(self).cands().len() ==> #[trigger] old(self).cands()[i]
                    < #[trigger] old(self).cands()[j],
        ensures
            final(self).cands().len() <= old(self).cands().len() + 1,
            forall|i: int, j: int|
                0 <= i < j < final(self).cands().len() ==> #[trigger] final(self).cands()[i]
                    < #[trigger] final(self).cands()[j],
            forall|x: u64| final(self).cands().contains(x) <==> (old(self).cands().contains(x) || x == v),
            final(self).config_spec() == old(self).config_spec(),
            final(self).issued() == old(self).issued(),
            final(self).running() == old(self).running(),
            final(self).end_pc_spec() == old(self).end_pc_spec(),
            final(self).time_spec() == old(self).time_spec(),
            final(self).pc_spec() == old(self).pc_spec(),
            final(self).susp() == old(self).susp(),
            final(self).ldp_spec() == old(self).ldp_spec(),
            final(self).cost_spec() == old(self).cost_spec(),
            final(self).moves() == old(self).moves(),
    {
        let mut i: usize = 0;
        while i < self.next_defrag_cands.len() && self.next_defrag_cands[i] < v
            invariant
                0 <= i <= self.cands().len(),
                *self == *old(self),
                forall|j: int| 0 <= j < i ==> #[trigger] self.cands()[j] < v,
            decreases self.cands().len() - i,
        {
            i = i + 1;
        }
        if i < self.next_defrag_cands.len() && self.next_defrag_cands[i] == v {
            proof {
                assert(self.cands().contains(v));
            }
            return ;
        }
        let ghost oldc = self.cands();
        let ghost pos = i as int;
        proof {
            assert(forall|j: int| 0 <= j < pos ==> #[trigger] oldc[j] < v);
            assert(pos < oldc.len() ==> oldc[pos] > v);
            assert forall|j: int| pos <= j < oldc.len() implies v < #[trigger] oldc[j] by {
                if j > pos {
                    assert(oldc[pos] < oldc[j]);
                }
            }
        }
        self.next_defrag_cands.insert(i, v);
        proof {
            assert(self.cands() =~= oldc.insert(pos, v));
            assert forall|x: u64| self.cands().contains(x) implies (oldc.contains(x) || x
                == v) by {
                let j = choose|j: int| 0 <= j < self.cands().len() && self.cands()[j] == x;
                if j < pos {
                    assert(oldc[j] == x);
                } else if j > pos {
                    assert(oldc[j - 1] == x);
                }
            }
            assert forall|x: u64| oldc.contains(x) implies self.cands().contains(x) by {
                let j = choose|j: int| 0 <= j < oldc.len() && oldc[j] == x;
                if j < pos {
                    assert(self.cands()[j] == x);
                } else {
                    assert(self.cands()[j + 1] == x);
                }
            }
            assert(self.cands().contains(v)) by {
                assert(self.cands()[pos] == v);
            }
        }
    }

    /// The common frame of the issue lemmas: how the new state relates to
    /// the old one after a successful issue.
    pub open spec fn issue_frame(&self, old_env: Environment, p: Program) -> bool {
        &&& old_env.wf()
        &&& p.wf()
        &&& old_env.can_issue_spec(p)
        &&& self.config_spec() == old_env.config_spec()
        &&& self.time_spec() == old_env.time_spec()
        &&& self.pc_spec() == old_env.pc_spec()
        &&& self.susp() == old_env.susp()
        &&& self.ldp_spec() == old_env.ldp_spec()
        &&& self.cost_spec() == old_env.cost_spec()
        &&& self.moves() == old_env.moves()
        &&& self.issued().len() == old_env.issued().len() + 1
        &&& forall|i: int|
            0 <= i < old_env.issued().len() ==> self.issued()[i] == #[trigger] old_env.issued()[i]
        &&& prog_equiv(self.issued()[old_env.issued().len() as int], p)
        &&& self.running().len() == old_env.running().len() + 1
        &&& forall|i: int|
            0 <= i < old_env.running().len() ==> self.running()[i] == #[trigger] old_env.running()[i]
        &&& prog_equiv(self.running()[old_env.running().len() as int], p)
        &&& self.end_pc_spec() == if p.z2s() > old_env.end_pc_spec() {
            p.z2s()
        } else {
            old_env.end_pc_spec() as int
        }
    }

    /// A list extended by a program equivalent to a well-formed in-range one
    /// stays well-formed and in range throughout.
    #[verifier::spinoff_prover]
    proof fn lemma_push_ranges(
        new_list: Seq<Program>,
        old_list: Seq<Program>,
        p: Program,
        sx: int,
        sy: int,
    )
        requires
            forall|i: int|
                0 <= i < old_list.len() ==> (#[trigger] old_list[i]).wf() && in_range(
                    old_list[i],
                    sx,
                    sy,
                ),
            new_list.len() == old_list.len() + 1,
            forall|i: int| 0 <= i < old_list.len() ==> new_list[i] == #[trigger] old_list[i],
            prog_equiv(new_list[old_list.len() as int], p),
            p.wf(),
            in_range(p, sx, sy),
        ensures
            forall|i: int|
                0 <= i < new_list.len() ==> (#[trigger] new_list[i]).wf() && in_range(
                    new_list[i],
                    sx,
                    sy,
                ),
    {
        let n = old_list.len() as int;
        crate::program::lemma_prog_equiv_properties(new_list[n], p, p);
        Self::lemma_equiv_in_range(new_list[n], p, sx, sy);
        assert forall|i: int| 0 <= i < new_list.len() implies (#[trigger] new_list[i]).wf()
            && in_range(new_list[i], sx, sy) by {
            if i < n {
                assert(old_list[i].wf());
                assert(in_range(old_list[i], sx, sy));
            }
        }
    }

    /// Running programs remain issued, and unfinished issued programs remain
    /// running.
    #[verifier::spinoff_prover]
    proof fn lemma_issue_membership(&self, old_env: Environment, p: Program)
        requires
            self.issue_frame(old_env, p),
        ensures
            forall|i: int|
                0 <= i < self.running().len() ==> contains_equiv(
                    self.issued(),
                    #[trigger] self.running()[i],
                ),
            forall|i: int|
                0 <= i < self.issued().len() && (#[trigger] self.issued()[i]).z2s()
                    > self.pc_spec() ==> contains_equiv(self.running(), self.issued()[i]),
    {
        let n = old_env.issued().len() as int;
        let m = old_env.running().len() as int;
        assert forall|i: int| 0 <= i < self.running().len() implies contains_equiv(
            self.issued(),
            #[trigger] self.running()[i],
        ) by {
            if i < m {
                assert(contains_equiv(old_env.issued(), old_env.running()[i]));
                let j = choose|j: int|
                    0 <= j < old_env.issued().len() && prog_equiv(
                        #[trigger] old_env.issued()[j],
                        old_env.running()[i],
                    );
                assert(prog_equiv(self.issued()[j], self.running()[i]));
            } else {
                crate::program::lemma_prog_equiv_trans(self.issued()[n], p, self.running()[m]);
                assert(prog_equiv(self.issued()[n], self.running()[m]));
            }
        }
        assert forall|i: int|
            0 <= i < self.issued().len() && (#[trigger] self.issued()[i]).z2s() > self.pc_spec()
                implies contains_equiv(self.running(), self.issued()[i]) by {
            if i < n {
                assert(old_env.issued()[i].z2s() > old_env.pc_spec());
                assert(contains_equiv(old_env.running(), old_env.issued()[i]));
                let j = choose|j: int|
                    0 <= j < old_env.running().len() && prog_equiv(
                        #[trigger] old_env.running()[j],
                        old_env.issued()[i],
                    );
                assert(prog_equiv(self.running()[j], self.issued()[i]));
            } else {
                crate::program::lemma_prog_equiv_trans(self.running()[m], p, self.issued()[n]);
                assert(prog_equiv(self.running()[m], self.issued()[n]));
            }
        }
    }

    /// The extent bound and the unchanged bookkeeping clauses carry over.
    #[verifier::spinoff_prover]
    proof fn lemma_issue_misc(&self, old_env: Environment, p: Program)
        requires
            self.issue_frame(old_env, p),
        ensures
            forall|i: int|
                0 <= i < self.issued().len() ==> (#[trigger] self.issued()[i]).z2s()
                    <= self.end_pc_spec(),
            exists|i: int|
                0 <= i < self.issued().len() && (#[trigger] self.issued()[i]).z2s()
                    == self.end_pc_spec(),
            forall|i: int| 0 <= i < self.susp().len() ==> (#[trigger] self.susp()[i]).0 >= self.pc_spec(),
            forall|i: int, j: int|
                0 <= i < j < self.susp().len() ==> (#[trigger] self.susp()[i]).0 < (
                #[trigger] self.susp()[j]).0,
            forall|i: int|
                0 <= i < self.moves().len() ==> {
                    &&& (#[trigger] self.moves()[i]).wf()
                    &&& self.moves()[i].sz() == 0
                    &&& self.moves()[i].x1s() >= 0
                    &&& self.moves()[i].y1s() >= 0
                    &&& self.moves()[i].z1s() >= 0
                },
    {
        let n = old_env.issued().len() as int;
        crate::program::lemma_prog_equiv_properties(self.issued()[n], p, p);
        assert forall|i: int| 0 <= i < self.issued().len() implies (
        #[trigger] self.issued()[i]).z2s() <= self.end_pc_spec() by {
            if i < n {
                assert(old_env.issued()[i].z2s() <= old_env.end_pc_spec());
            }
        }
        if p.z2s() > old_env.end_pc_spec() {
            assert(self.issued()[n].z2s() == self.end_pc_spec());
        } else if n > 0 {
            let w = choose|i: int|
                0 <= i < old_env.issued().len() && (#[trigger] old_env.issued()[i]).z2s()
                    == old_env.end_pc_spec();
            assert(self.issued()[w].z2s() == self.end_pc_spec());
        } else {
            // the first issue with extent inside the old bound of zero
            Self::lemma_z2s_ge_z1s(p);
            Self::lemma_in_range_z1_nonneg(p, old_env.size_x_spec(), old_env.size_y_spec());
            assert(self.issued()[n].z2s() == self.end_pc_spec());
        }
        assert forall|i: int| 0 <= i < self.susp().len() implies (#[trigger] self.susp()[i]).0
            >= self.pc_spec() by {
            assert(old_env.susp()[i].0 >= old_env.pc_spec());
        }
        assert forall|i: int, j: int| 0 <= i < j < self.susp().len() implies (
        #[trigger] self.susp()[i]).0 < (#[trigger] self.susp()[j]).0 by {
            assert(old_env.susp()[i].0 < old_env.susp()[j].0);
        }
        assert forall|i: int| 0 <= i < self.moves().len() implies {
            &&& (#[trigger] self.moves()[i]).wf()
            &&& self.moves()[i].sz() == 0
            &&& self.moves()[i].x1s() >= 0
            &&& self.moves()[i].y1s() >= 0
            &&& self.moves()[i].z1s() >= 0
        } by {
            assert(old_env.moves()[i].wf());
            assert(old_env.moves()[i].sz() == 0);
            assert(old_env.moves()[i].x1s() >= 0);
            assert(old_env.moves()[i].y1s() >= 0);
            assert(old_env.moves()[i].z1s() >= 0);
        }
    }

    /// Issuing a program placed at or beyond the counter keeps the issued
    /// set pairwise non-overlapping.
    #[verifier::spinoff_prover]
    proof fn lemma_issue_disjoint(&self, old_env: Environment, p: Program)
        requires
            self.issue_frame(old_env, p),
            old_env.issued_disjoint(),
            p.z1s() >= old_env.pc_spec(),
        ensures
            self.issued_disjoint(),
    {
        let n = old_env.issued().len() as int;
        let q = self.issued()[n];
        assert forall|i: int, j: int|
            0 <= i < self.issued().len() && 0 <= j < self.issued().len() && i != j implies !(
        #[trigger] programs_overlap(self.issued()[i], self.issued()[j])) by {
            if i < n && j < n {
                assert(!programs_overlap(old_env.issued()[i], old_env.issued()[j]));
            } else if i == n && j < n {
                assert(old_env.issued()[j] == self.issued()[j]);
                Self::lemma_new_disjoint(old_env, p, q, self.issued()[j]);
            } else if j == n && i < n {
                assert(old_env.issued()[i] == self.issued()[i]);
                Self::lemma_new_disjoint(old_env, p, q, self.issued()[i]);
                crate::program::lemma_overlap_sym(self.issued()[i], q);
            }
        }
    }

    /// An equivalent program occupies the same range.
    proof fn lemma_equiv_in_range(a: Program, b: Program, sx: int, sy: int)
        requires
            prog_equiv(a, b),
            in_range(b, sx, sy),
        ensures
            in_range(a, sx, sy),
    {
        if a.is_polycube_spec() {
            assert(a.poly()@ == b.poly()@);
        } else {
            assert(a.cubs() == b.cubs());
        }
    }

    /// The freshly issued program does not overlap older issued programs:
    /// live ones were checked, dead ones are separated along `z`.
    proof fn lemma_new_disjoint(old_env: Environment, p: Program, q: Program, other: Program)
        requires
            old_env.wf(),
            p.wf(),
            old_env.can_issue_spec(p),
            prog_equiv(q, p),
            p.z1s() >= old_env.pc_spec(),
            exists|i: int| 0 <= i < old_env.issued().len() && #[trigger] old_env.issued()[i] == other,
        ensures
            !programs_overlap(q, other),
    {
        crate::program::lemma_prog_equiv_properties(q, p, other);
        let i = choose|i: int|
            0 <= i < old_env.issued().len() && #[trigger] old_env.issued()[i] == other;
        assert(other.wf());
        if other.z2s() > old_env.pc_spec() {
            assert(contains_equiv(old_env.running(), other));
            let j = choose|j: int|
                0 <= j < old_env.running().len() && prog_equiv(
                    #[trigger] old_env.running()[j],
                    other,
                );
            assert(!programs_overlap(p, old_env.running()[j]));
            crate::program::lemma_prog_equiv_properties(old_env.running()[j], other, p);
            crate::program::lemma_overlap_sym(p, other);
            assert(!programs_overlap(q, other));
        } else {
            // other ended at or before the pc, and q starts at or after it
            if programs_overlap(q, other) {
                crate::program::lemma_overlap_needs_z_intersection(q, other);
                assert(other.z2s() > q.z1s());
                assert(q.z1s() == p.z1s());
                assert(false);
            }
        }
    }
}

/// What `advance_by` computes: starting from `(susp, pc, time)` with an
/// advance budget of `n` cycles, process suspensions in increasing order,
/// waiting at each reached suspension point; returns the remaining
/// suspensions, the new program counter, and the new time.
pub open spec fn advance_state(susp: Seq<(u64, u64)>, pc: int, time: int, n: int) -> (
    Seq<(u64, u64)>,
    int,
    int,
)
    decreases susp.len(),
{
    if susp.len() == 0 {
        (susp, pc + n, time + n)
    } else {
        let sp = susp[0].0 as int;
        let until = susp[0].1 as int;
        if pc + n > sp {
            let d = sp - pc;
            let t1 = time + d;
            let need = if until > t1 {
                until - t1
            } else {
                0
            };
            let rem = n - d;
            if rem >= need {
                advance_state(susp.drop_first(), sp, t1 + need, rem - need)
            } else {
                (susp, sp, time + n)
            }
        } else {
            (susp, pc + n, time + n)
        }
    }
}

/// The number of cycles needed to drain all issued work: advance through the
/// suspensions below `end_pc`, then run to `end_pc`.
pub open spec fn remaining_spec(susp: Seq<(u64, u64)>, pc: int, time: int, end_pc: int) -> int
    decreases susp.len(),
{
    if susp.len() == 0 {
        if end_pc > pc {
            end_pc - pc
        } else {
            0
        }
    } else {
        let sp = susp[0].0 as int;
        let until = susp[0].1 as int;
        if sp >= end_pc {
            if end_pc > pc {
                end_pc - pc
            } else {
                0
            }
        } else {
            let d = sp - pc;
            let t1 = time + d;
            let w = if until > t1 {
                until - t1
            } else {
                0
            };
            d + w + remaining_spec(susp.drop_first(), sp, t1 + w, end_pc)
        }
    }
}

/// `advance_state` adds the full budget to the clock, moves the program
/// counter forward by at most the budget, and leaves a suffix of the
/// suspension list whose points still lie at or beyond the counter.
pub proof fn lemma_advance_state_props(susp: Seq<(u64, u64)>, pc: int, time: int, n: int)
    requires
        0 <= pc <= time,
        n >= 0,
        forall|i: int| 0 <= i < susp.len() ==> (#[trigger] susp[i]).0 >= pc,
        forall|i: int, j: int|
            0 <= i < j < susp.len() ==> (#[trigger] susp[i]).0 < (#[trigger] susp[j]).0,
    ensures
        ({
            let (s2, pc2, t2) = advance_state(susp, pc, time, n);
            &&& t2 == time + n
            &&& pc <= pc2 <= pc + n
            &&& pc2 <= t2
            &&& forall|i: int| 0 <= i < s2.len() ==> (#[trigger] s2[i]).0 >= pc2
            &&& forall|i: int, j: int|
                0 <= i < j < s2.len() ==> (#[trigger] s2[i]).0 < (#[trigger] s2[j]).0
            &&& forall|i: int|
                0 <= i < s2.len() ==> exists|j: int| 0 <= j < susp.len() && #[trigger] s2[i] == susp[j]
        }),
    decreases susp.len(),
{
    if susp.len() > 0 {
        let sp = susp[0].0 as int;
        let until = susp[0].1 as int;
        if pc + n > sp {
            let d = sp - pc;
            let t1 = time + d;
            let need = if until > t1 {
                until - t1
            } else {
                0
            };
            let rem = n - d;
            if rem >= need {
                let tail = susp.drop_first();
                assert(forall|i: int|
                    0 <= i < tail.len() ==> #[trigger] tail[i] == susp[i + 1]);
                assert forall|i: int| 0 <= i < tail.len() implies (#[trigger] tail[i]).0 >= sp by {
                    assert(susp[0].0 < susp[i + 1].0);
                }
                lemma_advance_state_props(tail, sp, t1 + need, rem - need);
                let (s2, pc2, t2) = advance_state(tail, sp, t1 + need, rem - need);
                assert forall|i: int| 0 <= i < s2.len() implies exists|j: int|
                    0 <= j < susp.len() && #[trigger] s2[i] == susp[j] by {
                    let j = choose|j: int| 0 <= j < tail.len() && #[trigger] s2[i] == tail[j];
                    assert(s2[i] == susp[j + 1]);
                }
            }
        }
    }
}

/// Merge a suspension entry into a strictly sorted list: an existing entry
/// for `sp` keeps the larger deadline, otherwise `(sp, until)` is inserted in
/// order. Returns the position of the affected entry.
#[verifier::spinoff_prover]
fn susp_upsert(v: &mut Vec<(u64, u64)>, sp: u64, until: u64, pc: Ghost<u64>) -> (pos: usize)
    requires
        forall|i: int, j: int|
            0 <= i < j < old(v)@.len() ==> (#[trigger] old(v)@[i]).0 < (#[trigger] old(v)@[j]).0,
        forall|i: int| 0 <= i < old(v)@.len() ==> (#[trigger] old(v)@[i]).0 >= pc@,
        sp >= pc@,
    ensures
        forall|i: int, j: int|
            0 <= i < j < final(v)@.len() ==> (#[trigger] final(v)@[i]).0 < (#[trigger] final(v)@[j]).0,
        forall|i: int| 0 <= i < final(v)@.len() ==> (#[trigger] final(v)@[i]).0 >= pc@,
        pos <= old(v)@.len(),
        forall|j: int| 0 <= j < pos ==> (#[trigger] old(v)@[j]).0 < sp,
        pos < old(v)@.len() && old(v)@[pos as int].0 == sp ==> final(v)@ == old(v)@.update(
            pos as int,
            (
                sp,
                if old(v)@[pos as int].1 >= until {
                    old(v)@[pos as int].1
                } else {
                    until
                },
            ),
        ),
        pos == old(v)@.len() || old(v)@[pos as int].0 > sp ==> final(v)@ == old(v)@.insert(
            pos as int,
            (sp, until),
        ),
        pos < old(v)@.len() ==> old(v)@[pos as int].0 >= sp,
{
    let mut i: usize = 0;
    while i < v.len() && v[i].0 < sp
        invariant
            0 <= i <= v@.len(),
            v@ == old(v)@,
            forall|j: int| 0 <= j < i ==> (#[trigger] v@[j]).0 < sp,
        decreases v@.len() - i,
    {
        i = i + 1;
    }
    let ghost olds = v@;
    let ghost pos_g = i as int;
    proof {
        assert(pos_g < olds.len() ==> olds[pos_g].0 >= sp);
        assert forall|j: int| pos_g <= j < olds.len() implies sp <= (#[trigger] olds[j]).0 by {
            if j > pos_g {
                assert(olds[pos_g].0 < olds[j].0);
            }
        }
    }
    if i < v.len() && v[i].0 == sp {
        let cur = v[i].1;
        let merged = if cur >= until {
            cur
        } else {
            until
        };
        v.remove(i);
        v.insert(i, (sp, merged));
        proof {
            assert(v@ =~= olds.update(pos_g, (sp, merged)));
            assert forall|a: int, b: int|
                0 <= a < b < v@.len() implies (#[trigger] v@[a]).0 < (#[trigger] v@[b]).0 by {
                assert(olds[a].0 < olds[b].0);
            }
            assert forall|j: int| 0 <= j < v@.len() implies (#[trigger] v@[j]).0 >= pc@ by {
                if j != pos_g {
                    assert(olds[j].0 >= pc@);
                }
            }
        }
    } else {
        v.insert(i, (sp, until));
        proof {
            assert(v@ =~= olds.insert(pos_g, (sp, until)));
            assert forall|a: int, b: int|
                0 <= a < b < v@.len() implies (#[trigger] v@[a]).0 < (#[trigger] v@[b]).0 by {
                if b < pos_g {
                    assert(olds[a].0 < olds[b].0);
                } else if a < pos_g && b == pos_g {
                } else if a < pos_g && b > pos_g {
                    assert(olds[a].0 < olds[b - 1].0);
                } else if a == pos_g {
                    assert(sp <= olds[b - 1].0);
                    assert(v@[b] == olds[b - 1]);
                    assert(olds[b - 1].0 != sp);
                } else {
                    assert(olds[a - 1].0 < olds[b - 1].0);
                }
            }
            assert forall|j: int| 0 <= j < v@.len() implies (#[trigger] v@[j]).0 >= pc@ by {
                if j < pos_g {
                    assert(olds[j].0 >= pc@);
                } else if j > pos_g {
                    assert(olds[j - 1].0 >= pc@);
                }
            }
        }
    }
    i
}

impl Environment {
    /// Record that execution is blocked at `suspend_point` until the absolute
    /// time `until`; an existing entry is merged by taking the larger time:
    /// the returned position either named an entry for the same point, whose
    /// deadline becomes the maximum of the two, or is where the new entry was
    /// inserted in order.
    #[verifier::spinoff_prover]
    #[verifier::rlimit(100)]
    pub fn suspend_at(&mut self, suspend_point: ProgramCounter, until: u64) -> (pos: usize)
        requires
            old(self).wf(),
            old(self).pc_spec() <= suspend_point,
        ensures
            final(self).wf(),
            final(self).config_spec() == old(self).config_spec(),
            final(self).issued() == old(self).issued(),
            final(self).running() == old(self).running(),
            final(self).end_pc_spec() == old(self).end_pc_spec(),
            final(self).time_spec() == old(self).time_spec(),
            final(self).pc_spec() == old(self).pc_spec(),
            final(self).cands() == old(self).cands(),
            final(self).ldp_spec() == old(self).ldp_spec(),
            final(self).cost_spec() == old(self).cost_spec(),
            final(self).moves() == old(self).moves(),
            old(self).running_live() ==> final(self).running_live(),
            pos <= old(self).susp().len(),
            forall|j: int| 0 <= j < pos ==> (#[trigger] old(self).susp()[j]).0 < suspend_point,
            pos < old(self).susp().len() && old(self).susp()[pos as int].0 == suspend_point
                ==> final(self).susp() == old(self).susp().update(
                pos as int,
                (
                    suspend_point,
                    if old(self).susp()[pos as int].1 >= until {
                        old(self).susp()[pos as int].1
                    } else {
                        until
                    },
                ),
            ),
            pos == old(self).susp().len() || old(self).susp()[pos as int].0 > suspend_point
                ==> final(self).susp() == old(self).susp().insert(
                pos as int,
                (suspend_point, until),
            ),
            pos < old(self).susp().len() ==> old(self).susp()[pos as int].0 >= suspend_point,
    {
        let ghost pc = self.pc_spec();
        let pos = susp_upsert(&mut self.suspend_until, suspend_point, until, Ghost(pc));
        proof {
            if old(self).running_live() {
                assert forall|i2: int| 0 <= i2 < self.running().len() implies (
                #[trigger] self.running()[i2]).z2s() > self.pc_spec() by {
                    assert(old(self).running()[i2].z2s() > old(self).pc_spec());
                }
            }
            self.lemma_wf_frame(*old(self));
        }
        pos
    }

    pub fn issued_programs(&self) -> (r: &Vec<Program>)
        ensures
            r@ == self.issued(),
    {
        &self.issued_programs
    }

    pub fn running_programs(&self) -> (r: &Vec<Program>)
        ensures
            r@ == self.running(),
    {
        &self.running_programs
    }

    pub fn end_pc(&self) -> (r: u64)
        ensures
            r == self.end_pc_spec(),
    {
        self.end_pc
    }

    pub fn current_time(&self) -> (r: u64)
        ensures
            r == self.time_spec(),
    {
        self.current_time
    }

    /// Returns the global program counter.
    pub fn global_pc(&self) -> (r: u64)
        ensures
            r == self.pc_spec(),
    {
        self.program_counter
    }

    pub fn defrag_move_areas(&self) -> (r: &Vec<Cuboid>)
        ensures
            r@ == self.moves(),
    {
        &self.defrag_move_areas
    }

    pub fn defrag_cost_sum(&self) -> (r: u64)
        ensures
            r == self.cost_spec(),
    {
        self.defrag_cost_sum
    }

    /// The defensive postcondition of a run: every issued program lies in
    /// range and no two distinct issued programs overlap.
    #[verifier::spinoff_prover]
    pub fn validate(&self) -> (r: bool)
        requires
            self.wf(),
        ensures
            r == self.issued_disjoint(),
    {
        let n = self.issued_programs.len();
        let mut i: usize = 0;
        while i < n
            invariant
                0 <= i <= n,
                n == self.issued().len(),
                self.wf(),
                forall|a: int, b: int|
                    0 <= a < i && a < b < self.issued().len() ==> !(#[trigger] programs_overlap(
                        self.issued()[a],
                        self.issued()[b],
                    )),
            decreases n - i,
        {
            let mut j: usize = i + 1;
            while j < n
                invariant
                    0 <= i < j <= n,
                    n == self.issued().len(),
                    self.wf(),
                    forall|b: int|
                        i < b < j ==> !(#[trigger] programs_overlap(
                            self.issued()[i as int],
                            self.issued()[b],
                        )),
                decreases n - j,
            {
                if is_overlap(&self.issued_programs[i], &self.issued_programs[j]) {
                    proof {
                        assert(programs_overlap(self.issued()[i as int], self.issued()[j as int]));
                    }
                    return false;
                }
                j = j + 1;
            }
            i = i + 1;
        }
        proof {
            assert forall|a: int, b: int|
                0 <= a < self.issued().len() && 0 <= b < self.issued().len() && a != b implies !(
            #[trigger] programs_overlap(self.issued()[a], self.issued()[b])) by {
                if a < b {
                } else {
                    assert(!programs_overlap(self.issued()[b], self.issued()[a]));
                    crate::program::lemma_overlap_sym(self.issued()[a], self.issued()[b]);
                }
            }
        }
        true
    }

    /// A state that differs from a well-formed one only in its suspension
    /// list stays well-formed, provided the new list is sorted and its
    /// points lie at or beyond the counter.
    #[verifier::spinoff_prover]
    #[verifier::rlimit(100)]
    proof fn lemma_wf_frame(&self, old_env: Environment)
        requires
            old_env.wf(),
            self.config_spec() == old_env.config_spec(),
            self.issued() == old_env.issued(),
            self.running() == old_env.running(),
            self.end_pc_spec() == old_env.end_pc_spec(),
            self.pc_spec() == old_env.pc_spec(),
            self.time_spec() == old_env.time_spec(),
            self.cands() == old_env.cands(),
            self.ldp_spec() == old_env.ldp_spec(),
            self.moves() == old_env.moves(),
            forall|i: int| 0 <= i < self.susp().len() ==> (#[trigger] self.susp()[i]).0 >= self.pc_spec(),
            forall|i: int, j: int|
                0 <= i < j < self.susp().len() ==> (#[trigger] self.susp()[i]).0 < (
                #[trigger] self.susp()[j]).0,
        ensures
            self.wf(),
    {
        assert forall|i: int| 0 <= i < self.issued().len() implies (
        #[trigger] self.issued()[i]).wf() && in_range(
            self.issued()[i],
            self.size_x_spec(),
            self.size_y_spec(),
        ) by {
            assert(old_env.issued()[i].wf());
            assert(in_range(old_env.issued()[i], old_env.size_x_spec(), old_env.size_y_spec()));
        }
        assert forall|i: int| 0 <= i < self.running().len() implies (
        #[trigger] self.running()[i]).wf() && in_range(
            self.running()[i],
            self.size_x_spec(),
            self.size_y_spec(),
        ) && contains_equiv(self.issued(), self.running()[i]) by {
            assert(old_env.running()[i].wf());
            assert(in_range(old_env.running()[i], old_env.size_x_spec(), old_env.size_y_spec()));
            assert(contains_equiv(old_env.issued(), old_env.running()[i]));
        }
        assert forall|i: int|
            0 <= i < self.issued().len() && (#[trigger] self.issued()[i]).z2s() > self.pc_spec()
                implies contains_equiv(self.running(), self.issued()[i]) by {
            assert(old_env.issued()[i].z2s() > old_env.pc_spec());
            assert(contains_equiv(old_env.running(), old_env.issued()[i]));
        }
        assert forall|i: int| 0 <= i < self.issued().len() implies (
        #[trigger] self.issued()[i]).z2s() <= self.end_pc_spec() by {
            assert(old_env.issued()[i].z2s() <= old_env.end_pc_spec());
        }
        if self.issued().len() > 0 {
            let w = choose|i: int|
                0 <= i < old_env.issued().len() && (#[trigger] old_env.issued()[i]).z2s()
                    == old_env.end_pc_spec();
            assert(self.issued()[w].z2s() == self.end_pc_spec());
        }
        assert forall|i: int, j: int| 0 <= i < j < self.cands().len() implies #[trigger] self.cands()[i]
            < #[trigger] self.cands()[j] by {
            assert(old_env.cands()[i] < old_env.cands()[j]);
        }
        assert forall|i: int| 0 <= i < self.cands().len() implies #[trigger] self.cands()[i]
            > self.ldp_spec() by {
            assert(old_env.cands()[i] > old_env.ldp_spec());
        }
        assert forall|i: int| 0 <= i < self.moves().len() implies {
            &&& (#[trigger] self.moves()[i]).wf()
            &&& self.moves()[i].sz() == 0
            &&& self.moves()[i].x1s() >= 0
            &&& self.moves()[i].y1s() >= 0
            &&& self.moves()[i].z1s() >= 0
        } by {
            assert(old_env.moves()[i].wf());
            assert(old_env.moves()[i].sz() == 0);
            assert(old_env.moves()[i].x1s() >= 0);
            assert(old_env.moves()[i].y1s() >= 0);
            assert(old_env.moves()[i].z1s() >= 0);
        }
    }

    /// Walk the suspension list, consuming the advance budget.
    #[verifier::rlimit(100)]
#[verifier::spinoff_prover]
        fn advance_clock(&mut self, advance_cycles: u64)
        requires
            old(self).wf(),
            old(self).time_spec() + advance_cycles <= u64::MAX,
        ensures
            final(self).config_spec() == old(self).config_spec(),
            final(self).issued() == old(self).issued(),
            final(self).running() == old(self).running(),
            final(self).end_pc_spec() == old(self).end_pc_spec(),
            final(self).cands() == old(self).cands(),
            final(self).ldp_spec() == old(self).ldp_spec(),
            final(self).cost_spec() == old(self).cost_spec(),
            final(self).moves() == old(self).moves(),
            final(self).time_spec() == old(self).time_spec() + advance_cycles,
            old(self).pc_spec() <= final(self).pc_spec() <= old(self).pc_spec() + advance_cycles,
            final(self).pc_spec() <= final(self).time_spec(),
            forall|i: int|
                0 <= i < final(self).susp().len() ==> (#[trigger] final(self).susp()[i]).0
                    >= final(self).pc_spec(),
            forall|i: int, j: int|
                0 <= i < j < final(self).susp().len() ==> (#[trigger] final(self).susp()[i]).0 < (
                #[trigger] final(self).susp()[j]).0,
            ({
                let (s2, pc2, t2) = advance_state(
                    old(self).susp(),
                    old(self).pc_spec() as int,
                    old(self).time_spec() as int,
                    advance_cycles as int,
                );
                &&& final(self).susp() == s2
                &&& final(self).pc_spec() == pc2
                &&& final(self).time_spec() == t2
            }),
    {
        proof {
            lemma_advance_state_props(
                self.susp(),
                self.pc_spec() as int,
                self.time_spec() as int,
                advance_cycles as int,
            );
        }
        let ghost target = advance_state(
            old(self).susp(),
            old(self).pc_spec() as int,
            old(self).time_spec() as int,
            advance_cycles as int,
        );
        let mut budget: u64 = advance_cycles;
        let mut done: bool = false;
        while !done && self.suspend_until.len() > 0
            invariant
                old(self).time_spec() + advance_cycles <= u64::MAX,
                self.config_spec() == old(self).config_spec(),
                self.issued() == old(self).issued(),
                self.running() == old(self).running(),
                self.end_pc_spec() == old(self).end_pc_spec(),
                self.cands() == old(self).cands(),
                self.ldp_spec() == old(self).ldp_spec(),
                self.cost_spec() == old(self).cost_spec(),
                self.moves() == old(self).moves(),
                self.pc_spec() <= self.time_spec(),
                old(self).pc_spec() <= self.pc_spec(),
                self.time_spec() + budget == old(self).time_spec() + advance_cycles,
                forall|i: int| 0 <= i < self.susp().len() ==> (#[trigger] self.susp()[i]).0 >= self.pc_spec(),
                forall|i: int, j: int|
                    0 <= i < j < self.susp().len() ==> (#[trigger] self.susp()[i]).0 < (
                    #[trigger] self.susp()[j]).0,
                advance_state(
                    self.susp(),
                    self.pc_spec() as int,
                    self.time_spec() as int,
                    budget as int,
                ) == target,
                done ==> advance_state(
                    self.susp(),
                    self.pc_spec() as int,
                    self.time_spec() as int,
                    budget as int,
                ) == (self.susp(), self.pc_spec() + budget as int, self.time_spec() + budget as int),
            decreases (if done { 0int } else { 1int }), self.susp().len(),
        {
            proof {
                assert(self.susp()[0].0 >= self.pc_spec());
            }
            let (sp, until) = self.suspend_until[0];
            if self.program_counter + budget > sp {
                let d = sp - self.program_counter;
                self.current_time = self.current_time + d;
                self.program_counter = sp;
                budget = budget - d;
                let need: u64 = if until > self.current_time {
                    until - self.current_time
                } else {
                    0
                };
                if budget >= need {
                    self.current_time = self.current_time + need;
                    budget = budget - need;
                    let ghost pre = self.susp();
                    self.suspend_until.remove(0);
                    proof {
                        assert(self.susp() =~= pre.drop_first());
                        assert(forall|i: int|
                            0 <= i < self.susp().len() ==> #[trigger] self.susp()[i] == pre[i + 1]);
                        assert forall|i: int| 0 <= i < self.susp().len() implies (
                        #[trigger] self.susp()[i]).0 >= self.pc_spec() by {
                            assert(pre[0].0 < pre[i + 1].0);
                        }
                    }
                } else {
                    self.current_time = self.current_time + budget;
                    budget = 0;
                    done = true;
                }
            } else {
                done = true;
            }
        }
        proof {
            if !done {
                assert(self.susp().len() == 0);
            }
        }
        self.current_time = self.current_time + budget;
        self.program_counter = self.program_counter + budget;
        proof {
            assert(self.susp() == target.0);
            assert(self.pc_spec() == target.1);
            assert(self.time_spec() == target.2);
        }
    }

    /// Drop running programs whose extent ends at or before the counter.
    #[verifier::rlimit(100)]
#[verifier::spinoff_prover]
        fn prune_running(&mut self)
        requires
            forall|k: int|
                0 <= k < old(self).running().len() ==> (#[trigger] old(self).running()[k]).wf()
                    && old(self).running()[k].z1s() >= 0,
        ensures
            final(self).config_spec() == old(self).config_spec(),
            final(self).issued() == old(self).issued(),
            final(self).end_pc_spec() == old(self).end_pc_spec(),
            final(self).cands() == old(self).cands(),
            final(self).ldp_spec() == old(self).ldp_spec(),
            final(self).cost_spec() == old(self).cost_spec(),
            final(self).moves() == old(self).moves(),
            final(self).time_spec() == old(self).time_spec(),
            final(self).pc_spec() == old(self).pc_spec(),
            final(self).susp() == old(self).susp(),
            forall|i: int|
                0 <= i < final(self).running().len() ==> {
                    &&& (#[trigger] final(self).running()[i]).z2s() > final(self).pc_spec()
                    &&& old(self).running().contains(final(self).running()[i])
                },
            forall|k: int|
                0 <= k < old(self).running().len() && (#[trigger] old(self).running()[k]).z2s()
                    > final(self).pc_spec() ==> final(self).running().contains(old(self).running()[k]),
    {
        let mut kept: Vec<Program> = Vec::new();
        let mut rest: Vec<Program> = Vec::new();
        core::mem::swap(&mut rest, &mut self.running_programs);
        let ghost orig = rest@;
        proof {
            assert(orig == old(self).running());
            assert(rest@ =~= orig.skip(0));
        }
        while rest.len() > 0
            invariant
                self.pc_spec() == old(self).pc_spec(),
                orig == old(self).running(),
                forall|k: int|
                    0 <= k < orig.len() ==> (#[trigger] orig[k]).wf() && orig[k].z1s() >= 0,
                rest@.len() <= orig.len(),
                rest@ == orig.skip(orig.len() - rest@.len()),
                forall|i: int|
                    0 <= i < kept@.len() ==> {
                        &&& (#[trigger] kept@[i]).z2s() > self.pc_spec()
                        &&& orig.contains(kept@[i])
                    },
                forall|k: int|
                    0 <= k < orig.len() - rest@.len() && (#[trigger] orig[k]).z2s()
                        > self.pc_spec() ==> kept@.contains(orig[k]),
            decreases rest@.len(),
        {
            let ghost k = orig.len() - rest@.len();
            let ghost pre_rest = rest@;
            proof {
                assert(orig.skip(k)[0] == orig[k]);
                assert(pre_rest[0] == orig[k]);
            }
            let p = rest.remove(0);
            proof {
                assert(p == orig[k]);
                assert(rest@ =~= orig.skip(k + 1));
            }
            let z2 = Self::program_z2(&p);
            let ghost pre_kept = kept@;
            if z2 > self.program_counter {
                kept.push(p);
                proof {
                    assert(kept@.last() == orig[k]);
                    assert(kept@.contains(orig[k]));
                }
            }
            proof {
                assert forall|kk: int|
                    0 <= kk < orig.len() - rest@.len() && (#[trigger] orig[kk]).z2s()
                        > self.pc_spec() implies kept@.contains(orig[kk]) by {
                    if kk < k {
                        if orig[kk].z2s() > self.pc_spec() {
                            assert(pre_kept.contains(orig[kk]));
                            let w = choose|w: int|
                                0 <= w < pre_kept.len() && pre_kept[w] == orig[kk];
                            assert(kept@[w] == orig[kk]);
                            assert(kept@.contains(orig[kk]));
                        }
                    } else {
                        assert(kk == k);
                        assert(orig[k].z2s() > self.pc_spec());
                        assert(kept@.contains(orig[k]));
                    }
                }
            }
        }
        self.running_programs = kept;
    }

    /// Consume `advance_cycles` cycles of advance budget, waiting at each
    /// suspension point reached, then prune finished programs. The clock
    /// always advances by exactly the budget; the program counter advances by
    /// the budget minus the waited cycles and never moves backwards.
#[verifier::spinoff_prover]
        pub fn advance_by(&mut self, advance_cycles: u64)
        requires
            old(self).wf(),
            old(self).time_spec() + advance_cycles <= u64::MAX,
        ensures
            final(self).wf(),
            final(self).running_live(),
            final(self).config_spec() == old(self).config_spec(),
            final(self).issued() == old(self).issued(),
            final(self).end_pc_spec() == old(self).end_pc_spec(),
            final(self).cands() == old(self).cands(),
            final(self).ldp_spec() == old(self).ldp_spec(),
            final(self).cost_spec() == old(self).cost_spec(),
            final(self).moves() == old(self).moves(),
            final(self).time_spec() == old(self).time_spec() + advance_cycles,
            old(self).pc_spec() <= final(self).pc_spec() <= old(self).pc_spec() + advance_cycles,
            ({
                let (s2, pc2, t2) = advance_state(
                    old(self).susp(),
                    old(self).pc_spec() as int,
                    old(self).time_spec() as int,
                    advance_cycles as int,
                );
                &&& final(self).susp() == s2
                &&& final(self).pc_spec() == pc2
                &&& final(self).time_spec() == t2
            }),
            forall|i: int|
                0 <= i < final(self).running().len() ==> old(self).running().contains(
                    #[trigger] final(self).running()[i],
                ),
    {
        self.advance_clock(advance_cycles);
        proof {
            assert forall|k: int| 0 <= k < self.running().len() implies (
            #[trigger] self.running()[k]).wf() && self.running()[k].z1s() >= 0 by {
                assert(old(self).running()[k].wf());
                assert(in_range(
                    old(self).running()[k],
                    old(self).size_x_spec(),
                    old(self).size_y_spec(),
                ));
                Self::lemma_in_range_z1_nonneg(
                    self.running()[k],
                    old(self).size_x_spec(),
                    old(self).size_y_spec(),
                );
            }
        }
        let ghost mid = *self;
        self.prune_running();
        proof {
            assert(mid.running() == old(self).running());
            self.lemma_advance_wf(*old(self), old(self).running());
        }
    }

    /// After advancing, the invariant holds and running is live.
#[verifier::spinoff_prover]
        proof fn lemma_advance_wf(&self, old_env: Environment, orig: Seq<Program>)
        requires
            old_env.wf(),
            orig == old_env.running(),
            self.config_spec() == old_env.config_spec(),
            self.issued() == old_env.issued(),
            self.end_pc_spec() == old_env.end_pc_spec(),
            self.cands() == old_env.cands(),
            self.ldp_spec() == old_env.ldp_spec(),
            self.cost_spec() == old_env.cost_spec(),
            self.moves() == old_env.moves(),
            self.pc_spec() >= old_env.pc_spec(),
            self.pc_spec() <= self.time_spec(),
            forall|i: int| 0 <= i < self.susp().len() ==> (#[trigger] self.susp()[i]).0 >= self.pc_spec(),
            forall|i: int, j: int|
                0 <= i < j < self.susp().len() ==> (#[trigger] self.susp()[i]).0 < (
                #[trigger] self.susp()[j]).0,
            forall|i: int|
                0 <= i < self.running().len() ==> {
                    &&& (#[trigger] self.running()[i]).z2s() > self.pc_spec()
                    &&& orig.contains(self.running()[i])
                },
            forall|k: int|
                0 <= k < orig.len() && (#[trigger] orig[k]).z2s() > self.pc_spec()
                    ==> self.running().contains(orig[k]),
        ensures
            self.wf(),
            self.running_live(),
    {
        assert forall|i: int| 0 <= i < self.running().len() implies (
        #[trigger] self.running()[i]).wf() && in_range(
            self.running()[i],
            self.size_x_spec(),
            self.size_y_spec(),
        ) && contains_equiv(self.issued(), self.running()[i]) by {
            let j = choose|j: int| 0 <= j < orig.len() && #[trigger] orig[j] == self.running()[i];
            assert(old_env.running()[j].wf());
            assert(in_range(old_env.running()[j], old_env.size_x_spec(), old_env.size_y_spec()));
            assert(contains_equiv(old_env.issued(), old_env.running()[j]));
        }
        if self.issued().len() > 0 {
            let w = choose|i: int|
                0 <= i < old_env.issued().len() && (#[trigger] old_env.issued()[i]).z2s()
                    == old_env.end_pc_spec();
            assert(self.issued()[w].z2s() == self.end_pc_spec());
        }
        assert forall|i: int|
            0 <= i < self.issued().len() && (#[trigger] self.issued()[i]).z2s() > self.pc_spec()
                implies contains_equiv(self.running(), self.issued()[i]) by {
            assert(old_env.issued()[i].z2s() > old_env.pc_spec());
            assert(contains_equiv(old_env.running(), old_env.issued()[i]));
            let j = choose|j: int|
                0 <= j < old_env.running().len() && prog_equiv(
                    #[trigger] old_env.running()[j],
                    old_env.issued()[i],
                );
            crate::program::lemma_prog_equiv_properties(
                old_env.running()[j],
                old_env.issued()[i],
                old_env.issued()[i],
            );
            assert(orig[j].z2s() == self.issued()[i].z2s());
            assert(self.running().contains(orig[j]));
            let m = choose|m: int| 0 <= m < self.running().len() && self.running()[m] == orig[j];
            assert(prog_equiv(self.running()[m], self.issued()[i]));
        }
    }

    /// Simulate draining all issued work without mutating the state: the
    /// cycles to advance through every suspension below `end_pc`, wait out
    /// each deadline, reach `end_pc`, plus the recorded defragmentation cost.
    #[verifier::rlimit(100)]
#[verifier::spinoff_prover]
        pub fn remaining_cycles(&self) -> (r: u64)
        requires
            self.wf(),
        ensures
            ({
                let total = remaining_spec(
                    self.susp(),
                    self.pc_spec() as int,
                    self.time_spec() as int,
                    self.end_pc_spec() as int,
                ) + self.cost_spec();
                &&& total <= u64::MAX ==> r == total
                &&& total > u64::MAX ==> r == u64::MAX
            }),
    {
        let mut result: u128 = 0;
        let mut tmp_time: u128 = self.current_time as u128;
        let mut tmp_pc: u64 = self.program_counter;
        let mut i: usize = 0;
        let ghost s = self.susp();
        let mut stop: bool = false;
        proof {
            assert(s.skip(0) =~= s);
        }
        while !stop && i < self.suspend_until.len()
            invariant
                0 <= i <= s.len(),
                s == self.susp(),
                self.wf(),
                tmp_pc as u128 <= tmp_time,
                self.pc_spec() <= tmp_pc,
                tmp_time <= u64::MAX as u128 + (tmp_pc - self.pc_spec()),
                result == tmp_time - self.time_spec(),
                forall|j: int| i <= j < s.len() ==> (#[trigger] s[j]).0 >= tmp_pc,
                result + remaining_spec(
                    s.skip(i as int),
                    tmp_pc as int,
                    tmp_time as int,
                    self.end_pc_spec() as int,
                ) == remaining_spec(
                    s,
                    self.pc_spec() as int,
                    self.time_spec() as int,
                    self.end_pc_spec() as int,
                ),
                stop ==> (i < s.len() && s[i as int].0 >= self.end_pc_spec()),
            decreases (if stop { 0int } else { 1int }), s.len() - i,
        {
            let (sp, until) = self.suspend_until[i];
            if sp >= self.end_pc {
                stop = true;
            } else {
                proof {
                    assert(s.skip(i as int)[0] == s[i as int]);
                    assert(s.skip(i as int).drop_first() =~= s.skip(i as int + 1));
                    assert forall|j: int| i + 1 <= j < s.len() implies (#[trigger] s[j]).0
                        >= sp by {
                        assert(s[i as int].0 < s[j].0);
                    }
                }
                let d: u128 = (sp - tmp_pc) as u128;
                result = result + d;
                tmp_time = tmp_time + d;
                tmp_pc = sp;
                let wait: u128 = if (until as u128) > tmp_time {
                    (until as u128) - tmp_time
                } else {
                    0
                };
                result = result + wait;
                tmp_time = tmp_time + wait;
                i = i + 1;
            }
        }
        proof {
            if !stop {
                assert(i == s.len());
                assert(s.skip(i as int) =~= Seq::<(u64, u64)>::empty());
            } else {
                assert(s.skip(i as int)[0] == s[i as int]);
            }
        }
        let tail: u128 = if (self.end_pc as u128) > (tmp_pc as u128) {
            (self.end_pc as u128) - (tmp_pc as u128)
        } else {
            0
        };
        let total: u128 = result + tail + (self.defrag_cost_sum as u128);
        if total > u64::MAX as u128 {
            u64::MAX
        } else {
            total as u64
        }
    }

    /// Re-applying a suspension with a deadline no later than the recorded
    /// one leaves the suspension map unchanged: `suspend_at` merges by
    /// maximum, so the update writes back the entry it read.
    pub proof fn lemma_suspend_dominance(s: Seq<(u64, u64)>, i: int, sp: u64, t2: u64)
        requires
            0 <= i < s.len(),
            s[i].0 == sp,
            t2 <= s[i].1,
        ensures
            s.update(
                i,
                (
                    sp,
                    if s[i].1 >= t2 {
                        s[i].1
                    } else {
                        t2
                    },
                ),
            ) == s,
    {
        assert(s.update(
            i,
            (
                sp,
                if s[i].1 >= t2 {
                    s[i].1
                } else {
                    t2
                },
            ),
        ) =~= s);
    }
}


/// A suspension at the current program counter stalls the counter while the
/// clock runs toward the recorded deadline, and the counter catches up with
/// whatever budget remains: advancing by `n` always moves the clock by `n`,
/// but moves the counter only by what is left after waiting out the deadline.
pub proof fn law_suspension_stalls_counter(pc: u64, time: u64, t: u64, n: u64)
    requires
        pc <= time,
        time <= t,
        n > 0,
    ensures
        ({
            let (s2, pc2, t2) = advance_state(seq![(pc, t)], pc as int, time as int, n as int);
            &&& t2 == time + n
            &&& time + n <= t ==> pc2 == pc
            &&& time + n > t ==> pc2 == pc + n - (t - time)
        }),
{
    let s = seq![(pc, t)];
    assert(s[0] == (pc, t));
    assert(s.drop_first() =~= Seq::<(u64, u64)>::empty());
    let d = 0int;
    let need = t - time;
    if n >= need {
        assert(advance_state(s, pc as int, time as int, n as int) == advance_state(
            s.drop_first(),
            pc as int,
            t as int,
            n - need,
        ));
    }
}

/// The shape `drop_programs` accepts: one well-formed cuboid per program,
/// inside the first quadrant and small enough that compaction arithmetic
/// cannot overflow.
pub open spec fn droppable(ps: Seq<Program>) -> bool {
    forall|i: int|
        0 <= i < ps.len() ==> {
            &&& (#[trigger] ps[i]).is_cuboid_spec()
            &&& ps[i].cubs().len() == 1
            &&& ps[i].cubs()[0].wf()
            &&& ps[i].cubs()[0].x1s() >= 0
            &&& ps[i].cubs()[0].y1s() >= 0
            &&& ps[i].cubs()[0].z1s() >= 0
            &&& ps[i].cubs()[0].x2s() <= 0x4000_0000
            &&& ps[i].cubs()[0].y2s() <= 0x4000_0000
        }
}

/// A cuboid as `drop_programs` moves it: well-formed, in the first quadrant,
/// bounded footprint.
pub open spec fn drop_cub_ok(c: Cuboid) -> bool {
    &&& c.wf()
    &&& c.x1s() >= 0
    &&& c.y1s() >= 0
    &&& c.z1s() >= 0
    &&& c.x2s() <= 0x4000_0000
    &&& c.y2s() <= 0x4000_0000
}

/// The two lists hold the same cuboids, each way.
pub open spec fn cubs_set_equiv(a: Seq<Cuboid>, b: Seq<Cuboid>) -> bool {
    &&& a.len() == b.len()
    &&& forall|i: int| 0 <= i < a.len() ==> b.contains(#[trigger] a[i])
    &&& forall|i: int| 0 <= i < b.len() ==> a.contains(#[trigger] b[i])
}

/// The raw interval test of the gravity passes: the `x` extents meet.
pub open spec fn spans_x(a: Cuboid, b: Cuboid) -> bool {
    !(b.x2s() <= a.x1s() || a.x2s() <= b.x1s())
}

/// The raw interval test of the gravity passes: the `y` extents meet.
pub open spec fn spans_y(a: Cuboid, b: Cuboid) -> bool {
    !(b.y2s() <= a.y1s() || a.y2s() <= b.y1s())
}

/// The raw interval test of the gravity passes: the `z` extents meet.
pub open spec fn spans_z(a: Cuboid, b: Cuboid) -> bool {
    !(b.z2s() <= a.z1s() || a.z2s() <= b.z1s())
}

/// Where `c` settles falling along `y`: the largest far edge `y2` among the
/// already-settled cuboids that meet it on `x` and `z`, or 0 when none does.
pub open spec fn settle_y(prev: Seq<Cuboid>, c: Cuboid) -> int
    decreases prev.len(),
{
    if prev.len() == 0 {
        0
    } else {
        let rest = settle_y(prev.drop_last(), c);
        let o = prev.last();
        if spans_x(o, c) && spans_z(o, c) && o.y2s() > rest {
            o.y2s()
        } else {
            rest
        }
    }
}

/// Where `c` settles falling along `x`: the largest far edge `x2` among the
/// already-settled cuboids that meet it on `y` and `z`, or 0 when none does.
pub open spec fn settle_x(prev: Seq<Cuboid>, c: Cuboid) -> int
    decreases prev.len(),
{
    if prev.len() == 0 {
        0
    } else {
        let rest = settle_x(prev.drop_last(), c);
        let o = prev.last();
        if spans_y(o, c) && spans_z(o, c) && o.x2s() > rest {
            o.x2s()
        } else {
            rest
        }
    }
}

/// `out` is the `y`-gravity drop of `inp`, in order: each cuboid keeps its
/// `x`, `z` and sizes, and its `y` origin becomes its settling height — never
/// rising above where it started.
pub open spec fn y_pass_rel(inp: Seq<Cuboid>, out: Seq<Cuboid>) -> bool {
    &&& out.len() == inp.len()
    &&& forall|j: int|
        0 <= j < inp.len() ==> {
            &&& (#[trigger] out[j]).x1s() == inp[j].x1s()
            &&& out[j].z1s() == inp[j].z1s()
            &&& out[j].sx() == inp[j].sx()
            &&& out[j].sy() == inp[j].sy()
            &&& out[j].sz() == inp[j].sz()
            &&& out[j].y1s() == (if settle_y(out.take(j), inp[j]) < inp[j].y1s() {
                settle_y(out.take(j), inp[j])
            } else {
                inp[j].y1s()
            })
        }
}

/// `out` is the `x`-gravity drop of `inp`, in order.
pub open spec fn x_pass_rel(inp: Seq<Cuboid>, out: Seq<Cuboid>) -> bool {
    &&& out.len() == inp.len()
    &&& forall|j: int|
        0 <= j < inp.len() ==> {
            &&& (#[trigger] out[j]).y1s() == inp[j].y1s()
            &&& out[j].z1s() == inp[j].z1s()
            &&& out[j].sx() == inp[j].sx()
            &&& out[j].sy() == inp[j].sy()
            &&& out[j].sz() == inp[j].sz()
            &&& out[j].x1s() == (if settle_x(out.take(j), inp[j]) < inp[j].x1s() {
                settle_x(out.take(j), inp[j])
            } else {
                inp[j].x1s()
            })
        }
}

/// The single cuboids of the programs, in order.
pub open spec fn single_cubs(ps: Seq<Program>) -> Seq<Cuboid> {
    ps.map_values(|p: Program| p.cubs()[0])
}

/// Sort the cuboids in place by their `y` origin (insertion sort), keeping
/// the same cuboids and the accepted shape.
#[verifier::spinoff_prover]
#[verifier::rlimit(100)]
fn sort_cuboids_by_y(v: &mut Vec<Cuboid>)
    requires
        forall|i: int| 0 <= i < old(v)@.len() ==> drop_cub_ok(#[trigger] old(v)@[i]),
    ensures
        final(v)@.len() == old(v)@.len(),
        forall|i: int| 0 <= i < final(v)@.len() ==> drop_cub_ok(#[trigger] final(v)@[i]),
        cubs_set_equiv(final(v)@, old(v)@),
        forall|a: int, b: int|
            0 <= a < b < final(v)@.len() ==> (#[trigger] final(v)@[a]).y1s() <= (
            #[trigger] final(v)@[b]).y1s(),
{
    let n = v.len();
    if n == 0 {
        return ;
    }
    let mut i: usize = 1;
    while i < n
        invariant
            1 <= i <= n,
            n == v@.len(),
            forall|k: int| 0 <= k < v@.len() ==> drop_cub_ok(#[trigger] v@[k]),
            cubs_set_equiv(v@, old(v)@),
            forall|a: int, b: int|
                0 <= a < b < i ==> (#[trigger] v@[a]).y1s() <= (#[trigger] v@[b]).y1s(),
        decreases n - i,
    {
        let mut j: usize = i;
        while j > 0 && v[j - 1].y1() > v[j].y1()
            invariant
                0 <= j <= i < n,
                n == v@.len(),
                forall|k: int| 0 <= k < v@.len() ==> drop_cub_ok(#[trigger] v@[k]),
                cubs_set_equiv(v@, old(v)@),
                forall|a: int, b: int|
                    0 <= a < b <= i && b != j ==> (#[trigger] v@[a]).y1s() <= (
                    #[trigger] v@[b]).y1s(),
                forall|a: int| j < a <= i ==> (#[trigger] v@[a]).y1s() >= v@[j as int].y1s(),
            decreases j,
        {
            let ghost pre = v@;
            let c = v.remove(j);
            v.insert(j - 1, c);
            proof {
                assert(v@.len() == pre.len());
                assert(v@[j as int - 1] == pre[j as int]);
                assert(v@[j as int] == pre[j as int - 1]);
                assert(forall|k: int|
                    0 <= k < v@.len() && k != j - 1 && k != j ==> #[trigger] v@[k] == pre[k]);
                assert forall|idx: int| 0 <= idx < v@.len() implies old(v)@.contains(
                    #[trigger] v@[idx],
                ) by {
                    if idx == j - 1 {
                        assert(old(v)@.contains(pre[j as int]));
                    } else if idx == j {
                        assert(old(v)@.contains(pre[j as int - 1]));
                    } else {
                        assert(old(v)@.contains(pre[idx]));
                    }
                }
                assert forall|idx: int| 0 <= idx < old(v)@.len() implies v@.contains(
                    #[trigger] old(v)@[idx],
                ) by {
                    assert(pre.contains(old(v)@[idx]));
                    let k = choose|k: int| 0 <= k < pre.len() && pre[k] == old(v)@[idx];
                    if k == j - 1 {
                        assert(v@[j as int] == old(v)@[idx]);
                    } else if k == j {
                        assert(v@[j as int - 1] == old(v)@[idx]);
                    } else {
                        assert(v@[k] == old(v)@[idx]);
                    }
                }
                assert forall|a: int, b: int|
                    0 <= a < b <= i && b != j - 1 implies (#[trigger] v@[a]).y1s() <= (
                #[trigger] v@[b]).y1s() by {
                    if b == j {
                        if a < j - 1 {
                            assert(pre[a].y1s() <= pre[j as int - 1].y1s());
                        } else {
                            assert(pre[j as int].y1s() <= pre[j as int - 1].y1s());
                        }
                    } else if a == j - 1 {
                        assert(pre[j as int].y1s() <= pre[b].y1s());
                    } else if a == j {
                        assert(pre[j as int - 1].y1s() <= pre[b].y1s());
                    } else {
                        assert(pre[a].y1s() <= pre[b].y1s());
                    }
                }
                assert forall|a: int| j - 1 < a <= i implies (#[trigger] v@[a]).y1s()
                    >= v@[j as int - 1].y1s() by {
                    if a == j {
                        assert(pre[j as int - 1].y1s() > pre[j as int].y1s());
                    } else {
                        assert(pre[a].y1s() >= pre[j as int].y1s());
                    }
                }
            }
            j = j - 1;
        }
        proof {
            assert forall|a: int, b: int| 0 <= a < b <= i implies (#[trigger] v@[a]).y1s() <= (
            #[trigger] v@[b]).y1s() by {
                if b == j {
                    if j > 0 {
                        assert(v@[j as int - 1].y1s() <= v@[j as int].y1s());
                        if a < j - 1 {
                            assert(v@[a].y1s() <= v@[j as int - 1].y1s());
                        }
                    }
                }
            }
        }
        i = i + 1;
    }
}

/// Sort the cuboids in place by their `x` origin (insertion sort), keeping
/// the same cuboids and the accepted shape.
#[verifier::spinoff_prover]
#[verifier::rlimit(100)]
fn sort_cuboids_by_x(v: &mut Vec<Cuboid>)
    requires
        forall|i: int| 0 <= i < old(v)@.len() ==> drop_cub_ok(#[trigger] old(v)@[i]),
    ensures
        final(v)@.len() == old(v)@.len(),
        forall|i: int| 0 <= i < final(v)@.len() ==> drop_cub_ok(#[trigger] final(v)@[i]),
        cubs_set_equiv(final(v)@, old(v)@),
        forall|a: int, b: int|
            0 <= a < b < final(v)@.len() ==> (#[trigger] final(v)@[a]).x1s() <= (
            #[trigger] final(v)@[b]).x1s(),
{
    let n = v.len();
    if n == 0 {
        return ;
    }
    let mut i: usize = 1;
    while i < n
        invariant
            1 <= i <= n,
            n == v@.len(),
            forall|k: int| 0 <= k < v@.len() ==> drop_cub_ok(#[trigger] v@[k]),
            cubs_set_equiv(v@, old(v)@),
            forall|a: int, b: int|
                0 <= a < b < i ==> (#[trigger] v@[a]).x1s() <= (#[trigger] v@[b]).x1s(),
        decreases n - i,
    {
        let mut j: usize = i;
        while j > 0 && v[j - 1].x1() > v[j].x1()
            invariant
                0 <= j <= i < n,
                n == v@.len(),
                forall|k: int| 0 <= k < v@.len() ==> drop_cub_ok(#[trigger] v@[k]),
                cubs_set_equiv(v@, old(v)@),
                forall|a: int, b: int|
                    0 <= a < b <= i && b != j ==> (#[trigger] v@[a]).x1s() <= (
                    #[trigger] v@[b]).x1s(),
                forall|a: int| j < a <= i ==> (#[trigger] v@[a]).x1s() >= v@[j as int].x1s(),
            decreases j,
        {
            let ghost pre = v@;
            let c = v.remove(j);
            v.insert(j - 1, c);
            proof {
                assert(v@.len() == pre.len());
                assert(v@[j as int - 1] == pre[j as int]);
                assert(v@[j as int] == pre[j as int - 1]);
                assert(forall|k: int|
                    0 <= k < v@.len() && k != j - 1 && k != j ==> #[trigger] v@[k] == pre[k]);
                assert forall|idx: int| 0 <= idx < v@.len() implies old(v)@.contains(
                    #[trigger] v@[idx],
                ) by {
                    if idx == j - 1 {
                        assert(old(v)@.contains(pre[j as int]));
                    } else if idx == j {
                        assert(old(v)@.contains(pre[j as int - 1]));
                    } else {
                        assert(old(v)@.contains(pre[idx]));
                    }
                }
                assert forall|idx: int| 0 <= idx < old(v)@.len() implies v@.contains(
                    #[trigger] old(v)@[idx],
                ) by {
                    assert(pre.contains(old(v)@[idx]));
                    let k = choose|k: int| 0 <= k < pre.len() && pre[k] == old(v)@[idx];
                    if k == j - 1 {
                        assert(v@[j as int] == old(v)@[idx]);
                    } else if k == j {
                        assert(v@[j as int - 1] == old(v)@[idx]);
                    } else {
                        assert(v@[k] == old(v)@[idx]);
                    }
                }
                assert forall|a: int, b: int|
                    0 <= a < b <= i && b != j - 1 implies (#[trigger] v@[a]).x1s() <= (
                #[trigger] v@[b]).x1s() by {
                    if b == j {
                        if a < j - 1 {
                            assert(pre[a].x1s() <= pre[j as int - 1].x1s());
                        } else {
                            assert(pre[j as int].x1s() <= pre[j as int - 1].x1s());
                        }
                    } else if a == j - 1 {
                        assert(pre[j as int].x1s() <= pre[b].x1s());
                    } else if a == j {
                        assert(pre[j as int - 1].x1s() <= pre[b].x1s());
                    } else {
                        assert(pre[a].x1s() <= pre[b].x1s());
                    }
                }
                assert forall|a: int| j - 1 < a <= i implies (#[trigger] v@[a]).x1s()
                    >= v@[j as int - 1].x1s() by {
                    if a == j {
                        assert(pre[j as int - 1].x1s() > pre[j as int].x1s());
                    } else {
                        assert(pre[a].x1s() >= pre[j as int].x1s());
                    }
                }
            }
            j = j - 1;
        }
        proof {
            assert forall|a: int, b: int| 0 <= a < b <= i implies (#[trigger] v@[a]).x1s() <= (
            #[trigger] v@[b]).x1s() by {
                if b == j {
                    if j > 0 {
                        assert(v@[j as int - 1].x1s() <= v@[j as int].x1s());
                        if a < j - 1 {
                            assert(v@[a].x1s() <= v@[j as int - 1].x1s());
                        }
                    }
                }
            }
        }
        i = i + 1;
    }
}

/// Add `amount` to every column of `table` in `[from, to)`, growing the
/// table as needed and saturating on overflow.
fn add_column_cost(table: &mut Vec<u64>, from: i32, to: i32, amount: u64)
    requires
        0 <= from,
        from <= to,
        to <= 0x4000_0000,
    ensures
        final(table)@.len() >= old(table)@.len(),
{
    if table.len() < to as usize {
        let ghost pre = table@;
        table.resize(to as usize, 0);
        proof {
            assert(table@.len() >= pre.len());
        }
    }
    let mut x: usize = from as usize;
    while x < to as usize
        invariant
            table@.len() >= to as usize,
            table@.len() >= old(table)@.len(),
        decreases to as usize - x,
    {
        let cur = table[x];
        let merged = if cur <= u64::MAX - amount {
            cur + amount
        } else {
            u64::MAX
        };
        let ghost pre = table@;
        table.remove(x);
        table.insert(x, merged);
        proof {
            assert(table@.len() == pre.len());
        }
        x = x + 1;
    }
}

/// The largest entry of the table, or 0 when it is empty.
fn table_max(table: &Vec<u64>) -> (r: u64)
    ensures
        table@.len() == 0 ==> r == 0,
{
    let mut best: u64 = 0;
    let mut i: usize = 0;
    while i < table.len()
        invariant
            table@.len() == 0 ==> best == 0,
        decreases table@.len() - i,
    {
        if table[i] > best {
            best = table[i];
        }
        i = i + 1;
    }
    best
}

/// Cuboid `j` of `out` is cuboid `j` of `inp` dropped along `y`: same
/// footprint otherwise, `y` origin at its settling height over the cuboids
/// already settled before it, never above where it started.
pub open spec fn y_dropped_at(inp: Seq<Cuboid>, out: Seq<Cuboid>, j: int) -> bool {
    &&& out[j].x1s() == inp[j].x1s()
    &&& out[j].z1s() == inp[j].z1s()
    &&& out[j].sx() == inp[j].sx()
    &&& out[j].sy() == inp[j].sy()
    &&& out[j].sz() == inp[j].sz()
    &&& out[j].y1s() == (if settle_y(out.take(j), inp[j]) < inp[j].y1s() {
        settle_y(out.take(j), inp[j])
    } else {
        inp[j].y1s()
    })
}

/// Cuboid `j` of `out` is cuboid `j` of `inp` dropped along `x`.
pub open spec fn x_dropped_at(inp: Seq<Cuboid>, out: Seq<Cuboid>, j: int) -> bool {
    &&& out[j].y1s() == inp[j].y1s()
    &&& out[j].z1s() == inp[j].z1s()
    &&& out[j].sx() == inp[j].sx()
    &&& out[j].sy() == inp[j].sy()
    &&& out[j].sz() == inp[j].sz()
    &&& out[j].x1s() == (if settle_x(out.take(j), inp[j]) < inp[j].x1s() {
        settle_x(out.take(j), inp[j])
    } else {
        inp[j].x1s()
    })
}

/// Gravity-drop a slab of single-cuboid programs: sort by `y` origin and
/// drop each cuboid along `y` onto the highest settled cuboid it meets on
/// `x` and `z`; then sort by `x` origin and drop along `x` likewise. The
/// returned programs are exactly the two passes applied to the input
/// cuboids. Cuboids that physically move at the defragmentation plane record
/// a move region and a per-column cycle cost; the returned total is the sum
/// of the two passes' worst columns, and it is zero when nothing moved.
#[verifier::spinoff_prover]
#[verifier::rlimit(100)]
pub fn drop_programs(defrag_point: ProgramCounter, programs: Vec<Program>) -> (r: (
    u64,
    Vec<Cuboid>,
    Vec<Program>,
))
    requires
        droppable(programs@),
        defrag_point <= i32::MAX,
    ensures
        r.2@.len() == programs@.len(),
        droppable(r.2@),
        forall|j: int|
            0 <= j < r.1@.len() ==> {
                &&& (#[trigger] r.1@[j]).wf()
                &&& r.1@[j].sz() == 0
                &&& r.1@[j].x1s() >= 0
                &&& r.1@[j].y1s() >= 0
                &&& r.1@[j].z1s() >= 0
            },
        r.1@.len() == 0 ==> r.0 == 0,
        exists|s1: Seq<Cuboid>, o1: Seq<Cuboid>, s2: Seq<Cuboid>|
            #![trigger cubs_set_equiv(s1, single_cubs(programs@)), cubs_set_equiv(s2, o1)]
            {
                &&& cubs_set_equiv(s1, single_cubs(programs@))
                &&& forall|a: int, b: int|
                    0 <= a < b < s1.len() ==> (#[trigger] s1[a]).y1s() <= (#[trigger] s1[b]).y1s()
                &&& o1.len() == s1.len() && forall|j: int| 0 <= j < s1.len() ==> #[trigger] y_dropped_at(s1, o1, j)
                &&& cubs_set_equiv(s2, o1)
                &&& forall|a: int, b: int|
                    0 <= a < b < s2.len() ==> (#[trigger] s2[a]).x1s() <= (#[trigger] s2[b]).x1s()
                &&& single_cubs(r.2@).len() == s2.len() && forall|j: int|
                    0 <= j < s2.len() ==> #[trigger] x_dropped_at(s2, single_cubs(r.2@), j)
            },
{
    // extract the single cuboid of each program
    let mut cuboids: Vec<Cuboid> = Vec::new();
    let mut i: usize = 0;
    while i < programs.len()
        invariant
            0 <= i <= programs@.len(),
            droppable(programs@),
            cuboids@.len() == i,
            forall|k: int| 0 <= k < i ==> #[trigger] cuboids@[k] == programs@[k].cubs()[0],
            forall|k: int| 0 <= k < cuboids@.len() ==> drop_cub_ok(#[trigger] cuboids@[k]),
        decreases programs@.len() - i,
    {
        let cs = match programs[i].cuboid() {
            Some(cs) => cs,
            None => {
                proof {
                    assert(programs@[i as int].is_cuboid_spec());
                    assert(false);
                }
                return (0, Vec::new(), Vec::new());
            },
        };
        cuboids.push(cs[0]);
        i = i + 1;
    }
    proof {
        assert(cuboids@ =~= single_cubs(programs@));
    }
    let ghost inp0 = cuboids@;
    let mut move_areas: Vec<Cuboid> = Vec::new();

    // drop by y position
    sort_cuboids_by_y(&mut cuboids);
    let ghost s1 = cuboids@;
    let mut cs_drop_x: Vec<Cuboid> = Vec::new();
    let mut y_cost_table: Vec<u64> = Vec::new();
    let mut i: usize = 0;
    while i < cuboids.len()
        invariant
            0 <= i <= cuboids@.len(),
            cuboids@ == s1,
            forall|k: int| 0 <= k < s1.len() ==> drop_cub_ok(#[trigger] s1[k]),
            cs_drop_x@.len() == i,
            forall|k: int| 0 <= k < cs_drop_x@.len() ==> drop_cub_ok(#[trigger] cs_drop_x@[k]),
            forall|j: int| 0 <= j < i ==> #[trigger] y_dropped_at(s1, cs_drop_x@, j),
            forall|j: int|
                0 <= j < move_areas@.len() ==> {
                    &&& (#[trigger] move_areas@[j]).wf()
                    &&& move_areas@[j].sz() == 0
                    &&& move_areas@[j].x1s() >= 0
                    &&& move_areas@[j].y1s() >= 0
                    &&& move_areas@[j].z1s() >= 0
                },
            move_areas@.len() == 0 ==> y_cost_table@.len() == 0,
            defrag_point <= i32::MAX,
        decreases cuboids@.len() - i,
    {
        let mut c = cuboids[i];
        let mut new_y1: i32 = 0;
        let mut o: usize = 0;
        proof {
            assert(cs_drop_x@.take(0) =~= Seq::<Cuboid>::empty());
        }
        while o < cs_drop_x.len()
            invariant
                0 <= o <= cs_drop_x@.len(),
                forall|k: int| 0 <= k < cs_drop_x@.len() ==> drop_cub_ok(#[trigger] cs_drop_x@[k]),
                drop_cub_ok(c),
                c == s1[i as int],
                i < s1.len(),
                cuboids@ == s1,
                0 <= new_y1 <= 0x4000_0000,
                new_y1 == settle_y(cs_drop_x@.take(o as int), c),
            decreases cs_drop_x@.len() - o,
        {
            let other = &cs_drop_x[o];
            proof {
                assert(cs_drop_x@.take(o as int + 1) =~= cs_drop_x@.take(o as int).push(
                    cs_drop_x@[o as int],
                ));
                assert(cs_drop_x@.take(o as int + 1).drop_last() =~= cs_drop_x@.take(o as int));
            }
            let is_overlap_x = !(c.x2() <= other.x1() || other.x2() <= c.x1());
            let is_overlap_z = !(c.z2() <= other.z1() || other.z2() <= c.z1());
            if is_overlap_x && is_overlap_z && other.y2() > new_y1 {
                new_y1 = other.y2();
            }
            o = o + 1;
        }
        proof {
            assert(cs_drop_x@.take(cs_drop_x@.len() as int) =~= cs_drop_x@);
            assert(new_y1 == settle_y(cs_drop_x@, c));
        }
        let ghost old_out = cs_drop_x@;
        if new_y1 < c.y1() {
            // the cuboid falls; a cuboid already executing records a move
            if c.z1() as u64 == defrag_point {
                let y_move_len = (c.y1() - new_y1) as usize;
                move_areas.push(
                    Cuboid::new(
                        Coordinate::new(c.x1(), new_y1, c.z1()),
                        c.size_x(),
                        c.size_y() + y_move_len,
                        0,
                    ),
                );
                add_column_cost(&mut y_cost_table, c.x1(), c.x2(), c.size_y() as u64);
            }
            c.update_y1(new_y1);
        }
        cs_drop_x.push(c);
        proof {
            assert(cs_drop_x@.take(i as int) =~= old_out);
            assert(cs_drop_x@[i as int] == c);
            assert(y_dropped_at(s1, cs_drop_x@, i as int));
            assert forall|j: int| 0 <= j < i implies #[trigger] y_dropped_at(
                s1,
                cs_drop_x@,
                j,
            ) by {
                assert(y_dropped_at(s1, old_out, j));
                assert(cs_drop_x@.take(j) =~= old_out.take(j));
                assert(cs_drop_x@[j] == old_out[j]);
            }
        }
        i = i + 1;
    }
    let ghost o1 = cs_drop_x@;
    let ghost n_moves_y = move_areas@.len();
    let y_cost = table_max(&y_cost_table);
    proof {
        assert(n_moves_y == 0 ==> y_cost == 0);
    }

    // drop by x position
    sort_cuboids_by_x(&mut cs_drop_x);
    let ghost s2 = cs_drop_x@;
    let mut result: Vec<Cuboid> = Vec::new();
    let mut x_cost_table: Vec<u64> = Vec::new();
    let mut i: usize = 0;
    while i < cs_drop_x.len()
        invariant
            0 <= i <= cs_drop_x@.len(),
            cs_drop_x@ == s2,
            forall|k: int| 0 <= k < s2.len() ==> drop_cub_ok(#[trigger] s2[k]),
            result@.len() == i,
            forall|k: int| 0 <= k < result@.len() ==> drop_cub_ok(#[trigger] result@[k]),
            forall|j: int| 0 <= j < i ==> #[trigger] x_dropped_at(s2, result@, j),
            forall|j: int|
                0 <= j < move_areas@.len() ==> {
                    &&& (#[trigger] move_areas@[j]).wf()
                    &&& move_areas@[j].sz() == 0
                    &&& move_areas@[j].x1s() >= 0
                    &&& move_areas@[j].y1s() >= 0
                    &&& move_areas@[j].z1s() >= 0
                },
            move_areas@.len() >= n_moves_y,
            move_areas@.len() == n_moves_y ==> x_cost_table@.len() == 0,
            defrag_point <= i32::MAX,
        decreases cs_drop_x@.len() - i,
    {
        let mut c = cs_drop_x[i];
        let mut new_x1: i32 = 0;
        let mut o: usize = 0;
        proof {
            assert(result@.take(0) =~= Seq::<Cuboid>::empty());
        }
        while o < result.len()
            invariant
                0 <= o <= result@.len(),
                forall|k: int| 0 <= k < result@.len() ==> drop_cub_ok(#[trigger] result@[k]),
                drop_cub_ok(c),
                c == s2[i as int],
                i < s2.len(),
                cs_drop_x@ == s2,
                0 <= new_x1 <= 0x4000_0000,
                new_x1 == settle_x(result@.take(o as int), c),
            decreases result@.len() - o,
        {
            let other = &result[o];
            proof {
                assert(result@.take(o as int + 1) =~= result@.take(o as int).push(
                    result@[o as int],
                ));
                assert(result@.take(o as int + 1).drop_last() =~= result@.take(o as int));
            }
            let is_overlap_y = !(c.y2() <= other.y1() || other.y2() <= c.y1());
            let is_overlap_z = !(c.z2() <= other.z1() || other.z2() <= c.z1());
            if is_overlap_y && is_overlap_z && other.x2() > new_x1 {
                new_x1 = other.x2();
            }
            o = o + 1;
        }
        proof {
            assert(result@.take(result@.len() as int) =~= result@);
            assert(new_x1 == settle_x(result@, c));
        }
        let ghost old_out = result@;
        if new_x1 < c.x1() {
            if c.z1() as u64 == defrag_point {
                let x_move_len = (c.x1() - new_x1) as usize;
                move_areas.push(
                    Cuboid::new(
                        Coordinate::new(new_x1, c.y1(), c.z1()),
                        c.size_x() + x_move_len,
                        c.size_y(),
                        0,
                    ),
                );
                add_column_cost(&mut x_cost_table, c.y1(), c.y2(), c.size_x() as u64);
            }
            c.update_x1(new_x1);
        }
        result.push(c);
        proof {
            assert(result@.take(i as int) =~= old_out);
            assert(result@[i as int] == c);
            assert(x_dropped_at(s2, result@, i as int));
            assert forall|j: int| 0 <= j < i implies #[trigger] x_dropped_at(
                s2,
                result@,
                j,
            ) by {
                assert(x_dropped_at(s2, old_out, j));
                assert(result@.take(j) =~= old_out.take(j));
                assert(result@[j] == old_out[j]);
            }
        }
        i = i + 1;
    }
    let x_cost = table_max(&x_cost_table);
    proof {
        assert(move_areas@.len() == n_moves_y ==> x_cost == 0);
    }

    let mut out: Vec<Program> = Vec::new();
    let mut i: usize = 0;
    while i < result.len()
        invariant
            0 <= i <= result@.len(),
            forall|k: int| 0 <= k < result@.len() ==> drop_cub_ok(#[trigger] result@[k]),
            out@.len() == i,
            droppable(out@),
            forall|j: int| 0 <= j < i ==> (#[trigger] out@[j]).cubs()[0] == result@[j],
        decreases result@.len() - i,
    {
        let mut single: Vec<Cuboid> = Vec::new();
        single.push(result[i]);
        let p = Program::new(ProgramFormat::Cuboid(single));
        out.push(p);
        proof {
            assert(out@[out@.len() - 1].cubs().len() == 1);
            assert(out@[out@.len() - 1].cubs()[0] == result@[i as int]);
        }
        i = i + 1;
    }
    let total = if y_cost <= u64::MAX - x_cost {
        y_cost + x_cost
    } else {
        u64::MAX
    };
    proof {
        assert(single_cubs(out@) =~= result@);
        assert(cubs_set_equiv(s1, single_cubs(programs@))) by {
            assert(cubs_set_equiv(s1, inp0));
        }
        assert(o1.len() == s1.len() && forall|j: int|
            0 <= j < s1.len() ==> #[trigger] y_dropped_at(s1, o1, j));
        assert(cubs_set_equiv(s2, o1));
        assert(single_cubs(out@).len() == s2.len() && forall|j: int|
            0 <= j < s2.len() ==> #[trigger] x_dropped_at(s2, single_cubs(out@), j));
        if move_areas@.len() == 0 {
            assert(n_moves_y == 0);
            assert(total == 0);
        }
    }
    (total, move_areas, out)
}

} // verus!
