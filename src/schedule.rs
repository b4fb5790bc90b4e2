//! The order in which the blocked engine packs panels and calls its kernel:
//! reduction blocks outermost, then row blocks (one A panel each, reused across
//! every column tile), then column tiles (one B panel each, reused across every
//! tile of the row block), then the tiles of the row block.
use crate::plan::{lemma_exact_cover, GemmPlan};
use vstd::prelude::*;

verus! {

/// One step of the blocked engine.
#[derive(Clone, Copy, Debug, PartialEq, Eq, Structural)]
pub enum Step {
    /// Pack row block `mb` of A for reduction block `kb`.
    PackA { kb: usize, mb: usize },
    /// Pack column tile `jt` of B for reduction block `kb`.
    PackB { kb: usize, jt: usize },
    /// Run the kernel on tile `(kb, mb, jt, it)` of the plan.
    Kernel { kb: usize, mb: usize, jt: usize, it: usize },
}

pub type Coords = (int, int, int, int);

/// Lexicographic order on tile coordinates `(kb, mb, jt, it)`.
pub open spec fn lex_lt(a: Coords, b: Coords) -> bool {
    a.0 < b.0 || (a.0 == b.0 && (a.1 < b.1 || (a.1 == b.1 && (a.2 < b.2 || (a.2 == b.2 && a.3
        < b.3)))))
}

pub open spec fn is_kernel(st: Step) -> bool {
    st is Kernel
}

pub open spec fn kernel_coords(st: Step) -> Coords {
    match st {
        Step::Kernel { kb, mb, jt, it } => (kb as int, mb as int, jt as int, it as int),
        _ => (0, 0, 0, 0),
    }
}

pub open spec fn kernel_step(t: Coords) -> Step {
    Step::Kernel { kb: t.0 as usize, mb: t.1 as usize, jt: t.2 as usize, it: t.3 as usize }
}

/// The A panel that the last `PackA` of `steps` packed: `(kb, mb)`.
pub open spec fn last_pack_a(steps: Seq<Step>) -> Option<(int, int)>
    decreases steps.len(),
{
    if steps.len() == 0 {
        None
    } else {
        match steps.last() {
            Step::PackA { kb, mb } => Some((kb as int, mb as int)),
            _ => last_pack_a(steps.drop_last()),
        }
    }
}

/// The B panel that the last `PackB` of `steps` packed: `(kb, jt)`.
pub open spec fn last_pack_b(steps: Seq<Step>) -> Option<(int, int)>
    decreases steps.len(),
{
    if steps.len() == 0 {
        None
    } else {
        match steps.last() {
            Step::PackB { kb, jt } => Some((kb as int, jt as int)),
            _ => last_pack_b(steps.drop_last()),
        }
    }
}

impl GemmPlan {
    pub open spec fn valid_coords(self, t: Coords) -> bool {
        self.valid_tile(t.0, t.1, t.2, t.3)
    }

    /// A step names a reduction block, row block, column tile and tile of the plan.
    pub open spec fn step_ok(self, st: Step) -> bool {
        match st {
            Step::PackA { kb, mb } => kb < self.spec_num_k_blocks() && mb
                < self.spec_num_m_blocks(),
            Step::PackB { kb, jt } => kb < self.spec_num_k_blocks() && jt
                < self.spec_num_col_tiles(),
            Step::Kernel { kb, mb, jt, it } => self.valid_tile(
                kb as int,
                mb as int,
                jt as int,
                it as int,
            ),
        }
    }

    /// `steps` is a schedule of the plan up to (not including) tile `cur`:
    /// its steps are the plan's; its kernel steps come in increasing order,
    /// all before `cur`, each right after the packing of the A panel of its row
    /// block and of the B panel of its column tile (no other panel packed in
    /// between); and every tile before `cur` has a kernel step.
    pub open spec fn schedule_upto(self, steps: Seq<Step>, cur: Coords) -> bool {
        &&& forall|s: int| 0 <= s < steps.len() ==> self.step_ok(#[trigger] steps[s])
        &&& forall|s: int|
            0 <= s < steps.len() && is_kernel(#[trigger] steps[s]) ==> lex_lt(
                kernel_coords(steps[s]),
                cur,
            )
        &&& forall|s1: int, s2: int|
            0 <= s1 < s2 < steps.len() && is_kernel(#[trigger] steps[s1]) && is_kernel(
                #[trigger] steps[s2],
            ) ==> lex_lt(kernel_coords(steps[s1]), kernel_coords(steps[s2]))
        &&& forall|s: int|
            0 <= s < steps.len() && is_kernel(#[trigger] steps[s]) ==> {
                &&& last_pack_a(steps.take(s)) == Some(
                    (kernel_coords(steps[s]).0, kernel_coords(steps[s]).1),
                )
                &&& last_pack_b(steps.take(s)) == Some(
                    (kernel_coords(steps[s]).0, kernel_coords(steps[s]).2),
                )
            }
        &&& forall|t: Coords|
            #[trigger] self.valid_coords(t) && lex_lt(t, cur) ==> exists|s: int|
                0 <= s < steps.len() && #[trigger] steps[s] == kernel_step(t)
    }

    /// `steps` is a complete schedule of the plan.
    pub open spec fn is_schedule(self, steps: Seq<Step>) -> bool {
        self.schedule_upto(steps, (self.spec_num_k_blocks(), 0, 0, 0))
    }
}

proof fn lemma_last_pack_push(steps: Seq<Step>, st: Step)
    ensures
        last_pack_a(steps.push(st)) == (match st {
            Step::PackA { kb, mb } => Some((kb as int, mb as int)),
            _ => last_pack_a(steps),
        }),
        last_pack_b(steps.push(st)) == (match st {
            Step::PackB { kb, jt } => Some((kb as int, jt as int)),
            _ => last_pack_b(steps),
        }),
{
    assert(steps.push(st).drop_last() =~= steps);
}

/// Appending a packing step keeps a schedule prefix.
proof fn lemma_push_pack(plan: GemmPlan, steps: Seq<Step>, st: Step, cur: Coords)
    requires
        plan.schedule_upto(steps, cur),
        plan.step_ok(st),
        !is_kernel(st),
    ensures
        plan.schedule_upto(steps.push(st), cur),
{
    let next = steps.push(st);
    assert forall|s: int| 0 <= s < steps.len() implies #[trigger] next.take(s) == steps.take(s) by {
        assert(next.take(s) =~= steps.take(s));
    }
    assert forall|s: int| 0 <= s < next.len() implies plan.step_ok(#[trigger] next[s]) by {
        if s < steps.len() {
            assert(next[s] == steps[s]);
        }
    }
    assert forall|s: int|
        0 <= s < next.len() && is_kernel(#[trigger] next[s]) implies {
        &&& last_pack_a(next.take(s)) == Some((kernel_coords(next[s]).0, kernel_coords(next[s]).1))
        &&& last_pack_b(next.take(s)) == Some((kernel_coords(next[s]).0, kernel_coords(next[s]).2))
    } by {
        assert(next[s] == steps[s]);
        assert(next.take(s) == steps.take(s));
    }
    assert forall|t: Coords| #[trigger] plan.valid_coords(t) && lex_lt(t, cur) implies exists|s: int|
        0 <= s < next.len() && #[trigger] next[s] == kernel_step(t) by {
        let s = choose|s: int| 0 <= s < steps.len() && #[trigger] steps[s] == kernel_step(t);
        assert(next[s] == steps[s]);
    }
}

/// Appending the kernel step of tile `cur`, right after the packing of its
/// panels, extends a schedule prefix past `cur`.
proof fn lemma_push_kernel(
    plan: GemmPlan,
    steps: Seq<Step>,
    kb: usize,
    mb: usize,
    jt: usize,
    it: usize,
)
    requires
        plan.schedule_upto(steps, (kb as int, mb as int, jt as int, it as int)),
        plan.valid_tile(kb as int, mb as int, jt as int, it as int),
        last_pack_a(steps) == Some((kb as int, mb as int)),
        last_pack_b(steps) == Some((kb as int, jt as int)),
    ensures
        plan.schedule_upto(
            steps.push(Step::Kernel { kb, mb, jt, it }),
            (kb as int, mb as int, jt as int, it + 1),
        ),
{
    let cur = (kb as int, mb as int, jt as int, it as int);
    let st = Step::Kernel { kb, mb, jt, it };
    let next = steps.push(st);
    assert(kernel_coords(st) == cur);
    assert(kernel_step(cur) == st);
    assert(next.take(steps.len() as int) =~= steps);
    assert forall|s: int| 0 <= s < steps.len() implies #[trigger] next.take(s) == steps.take(s) by {
        assert(next.take(s) =~= steps.take(s));
    }
    assert forall|s: int| 0 <= s < next.len() implies plan.step_ok(#[trigger] next[s]) by {
        if s < steps.len() {
            assert(next[s] == steps[s]);
        }
    }
    assert forall|s1: int, s2: int|
        0 <= s1 < s2 < next.len() && is_kernel(#[trigger] next[s1]) && is_kernel(
            #[trigger] next[s2],
        ) implies lex_lt(kernel_coords(next[s1]), kernel_coords(next[s2])) by {
        assert(next[s1] == steps[s1]);
        if s2 < steps.len() {
            assert(next[s2] == steps[s2]);
        }
    }
    assert forall|s: int|
        0 <= s < next.len() && is_kernel(#[trigger] next[s]) implies {
        &&& last_pack_a(next.take(s)) == Some((kernel_coords(next[s]).0, kernel_coords(next[s]).1))
        &&& last_pack_b(next.take(s)) == Some((kernel_coords(next[s]).0, kernel_coords(next[s]).2))
    } by {
        if s < steps.len() {
            assert(next[s] == steps[s]);
            assert(next.take(s) == steps.take(s));
        }
    }
    assert forall|t: Coords|
        #[trigger] plan.valid_coords(t) && lex_lt(t, (kb as int, mb as int, jt as int, it + 1))
            implies exists|s: int| 0 <= s < next.len() && #[trigger] next[s] == kernel_step(t) by {
        if t == cur {
            assert(next[steps.len() as int] == kernel_step(t));
        } else {
            let s = choose|s: int| 0 <= s < steps.len() && #[trigger] steps[s] == kernel_step(t);
            assert(next[s] == steps[s]);
        }
    }
}

/// Moving the cursor forward over no tile of the plan keeps a schedule prefix.
proof fn lemma_advance(plan: GemmPlan, steps: Seq<Step>, cur: Coords, next: Coords)
    requires
        plan.schedule_upto(steps, cur),
        !lex_lt(next, cur),
        forall|t: Coords| #[trigger] plan.valid_coords(t) && lex_lt(t, next) ==> lex_lt(t, cur),
    ensures
        plan.schedule_upto(steps, next),
{
}

impl GemmPlan {
    /// The engine's steps, in order: for each reduction block, for each row
    /// block, pack its A panel, then for each column tile, pack its B panel and
    /// run the kernel on each tile of the row block.
    pub fn schedule(&self) -> (r: Vec<Step>)
        requires
            self.wf(),
        ensures
            self.is_schedule(r@),
    {
        let nk = self.num_k_blocks();
        let nm = self.num_m_blocks();
        let nj = self.num_col_tiles();
        let mut steps: Vec<Step> = Vec::new();
        let mut kb: usize = 0;
        while kb < nk
            invariant
                self.wf(),
                nk == self.spec_num_k_blocks(),
                nm == self.spec_num_m_blocks(),
                nj == self.spec_num_col_tiles(),
                kb <= nk,
                self.schedule_upto(steps@, (kb as int, 0, 0, 0)),
            decreases nk - kb,
        {
            let mut mb: usize = 0;
            while mb < nm
                invariant
                    self.wf(),
                    nk == self.spec_num_k_blocks(),
                    nm == self.spec_num_m_blocks(),
                    nj == self.spec_num_col_tiles(),
                    kb < nk,
                    mb <= nm,
                    self.schedule_upto(steps@, (kb as int, mb as int, 0, 0)),
                decreases nm - mb,
            {
                proof {
                    lemma_last_pack_push(steps@, Step::PackA { kb, mb });
                    lemma_push_pack(*self, steps@, Step::PackA { kb, mb }, (kb as int, mb as int, 0, 0));
                }
                steps.push(Step::PackA { kb, mb });
                let nt = self.tiles_in_m_block(mb);
                let mut jt: usize = 0;
                while jt < nj
                    invariant
                        self.wf(),
                        nk == self.spec_num_k_blocks(),
                        nm == self.spec_num_m_blocks(),
                        nj == self.spec_num_col_tiles(),
                        nt == self.spec_tiles_in_m_block(mb as int),
                        kb < nk,
                        mb < nm,
                        jt <= nj,
                        self.schedule_upto(steps@, (kb as int, mb as int, jt as int, 0)),
                        last_pack_a(steps@) == Some((kb as int, mb as int)),
                    decreases nj - jt,
                {
                    proof {
                        lemma_last_pack_push(steps@, Step::PackB { kb, jt });
                        lemma_push_pack(
                            *self,
                            steps@,
                            Step::PackB { kb, jt },
                            (kb as int, mb as int, jt as int, 0),
                        );
                    }
                    steps.push(Step::PackB { kb, jt });
                    let mut it: usize = 0;
                    while it < nt
                        invariant
                            self.wf(),
                            nk == self.spec_num_k_blocks(),
                            nm == self.spec_num_m_blocks(),
                            nj == self.spec_num_col_tiles(),
                            nt == self.spec_tiles_in_m_block(mb as int),
                            kb < nk,
                            mb < nm,
                            jt < nj,
                            it <= nt,
                            self.schedule_upto(steps@, (kb as int, mb as int, jt as int, it as int)),
                            last_pack_a(steps@) == Some((kb as int, mb as int)),
                            last_pack_b(steps@) == Some((kb as int, jt as int)),
                        decreases nt - it,
                    {
                        proof {
                            lemma_last_pack_push(steps@, Step::Kernel { kb, mb, jt, it });
                            lemma_push_kernel(*self, steps@, kb, mb, jt, it);
                        }
                        steps.push(Step::Kernel { kb, mb, jt, it });
                        it = it + 1;
                    }
                    proof {
                        lemma_advance(
                            *self,
                            steps@,
                            (kb as int, mb as int, jt as int, it as int),
                            (kb as int, mb as int, jt + 1, 0),
                        );
                    }
                    jt = jt + 1;
                }
                proof {
                    lemma_advance(
                        *self,
                        steps@,
                        (kb as int, mb as int, jt as int, 0),
                        (kb as int, mb + 1, 0, 0),
                    );
                }
                mb = mb + 1;
            }
            proof {
                lemma_advance(*self, steps@, (kb as int, mb as int, 0, 0), (kb + 1, 0, 0, 0));
            }
            kb = kb + 1;
        }
        steps
    }
}

impl GemmPlan {
    /// Step `st` is a kernel call whose tile accumulates `A[i, p] * B[p, j]` into `C[i, j]`.
    pub open spec fn step_covers(self, st: Step, i: int, j: int, p: int) -> bool {
        &&& is_kernel(st)
        &&& self.tile_covers(
            kernel_coords(st).0,
            kernel_coords(st).1,
            kernel_coords(st).2,
            kernel_coords(st).3,
            i,
            j,
            p,
        )
    }
}

/// Running a schedule accumulates each product of the grid of whole tiles
/// exactly once and leaves the edge regions to the scalar code: for every
/// `C[i, j]` of the plan's rows and every reduction index `p`, some kernel step
/// covers `(i, j, p)` exactly when `C[i, j]` lies in the grid, and no two
/// kernel steps cover it. Together with `lemma_exact_cover` this holds for
/// every tile shape and size, however the dimensions fall on the tiles.
pub proof fn lemma_schedule_exact_cover(plan: GemmPlan, steps: Seq<Step>, i: int, j: int, p: int)
    requires
        plan.wf(),
        plan.is_schedule(steps),
        plan.row_start <= i < plan.row_end,
        0 <= j < plan.n,
        0 <= p < plan.k,
    ensures
        (exists|s: int| 0 <= s < steps.len() && plan.step_covers(#[trigger] steps[s], i, j, p))
            <==> plan.in_tile_grid(i, j),
        forall|s1: int, s2: int|
            0 <= s1 < steps.len() && 0 <= s2 < steps.len() && plan.step_covers(
                #[trigger] steps[s1],
                i,
                j,
                p,
            ) && plan.step_covers(#[trigger] steps[s2], i, j, p) ==> s1 == s2,
{
    lemma_exact_cover(plan, i, j, p);
    let owner = (plan.owner_kb(p), plan.owner_mb(i), plan.owner_jt(j), plan.owner_it(i));
    if plan.in_tile_grid(i, j) {
        assert(plan.valid_coords(owner));
        assert(lex_lt(owner, (plan.spec_num_k_blocks(), 0, 0, 0)));
        let s = choose|s: int| 0 <= s < steps.len() && #[trigger] steps[s] == kernel_step(owner);
        assert(kernel_coords(kernel_step(owner)) == owner);
        assert(plan.step_covers(steps[s], i, j, p));
    }
    assert forall|s: int|
        0 <= s < steps.len() && plan.step_covers(#[trigger] steps[s], i, j, p) implies {
        &&& plan.in_tile_grid(i, j)
        &&& kernel_coords(steps[s]) == owner
    } by {
        assert(plan.step_ok(steps[s]));
        let c = kernel_coords(steps[s]);
        assert(plan.valid_tile(c.0, c.1, c.2, c.3));
        assert(plan.tile_covers(c.0, c.1, c.2, c.3, i, j, p));
    }
    assert forall|s1: int, s2: int|
        0 <= s1 < steps.len() && 0 <= s2 < steps.len() && plan.step_covers(
            #[trigger] steps[s1],
            i,
            j,
            p,
        ) && plan.step_covers(#[trigger] steps[s2], i, j, p) implies s1 == s2 by {
        if s1 < s2 {
            assert(lex_lt(kernel_coords(steps[s1]), kernel_coords(steps[s2])));
        } else if s2 < s1 {
            assert(lex_lt(kernel_coords(steps[s2]), kernel_coords(steps[s1])));
        }
    }
}

} // verus!
