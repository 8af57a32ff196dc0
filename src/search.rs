use vstd::prelude::*;
use crate::judge::{dots, row_dots};
use crate::geometry::{Pos, Dir, N, offset_of, lemma_cell_of_offset, lemma_offset_of_cell, cell_at};
use crate::grid::{
    Cell, Grid, EMPTY, empty_cell, on_run, fits, claimed, released, empty_count, occupied_count,
    lemma_cells_partition, lemma_empty_count_bound, lemma_claim_release_round_trip,
    lemma_release_claim_round_trip,
};

verus! {

/// Where a placed pattern lies: its first cell and the direction it runs in.
#[derive(Clone, Copy, Debug, PartialEq, Eq, Structural)]
pub struct Placement {
    pub anchor: Pos,
    pub dir: Dir,
}

/// Whether placement `pl` of a pattern of length `len` passes through flat index `j`.
pub open spec fn covers(pl: Option<Placement>, len: int, j: int) -> bool {
    match pl {
        Some(p) => on_run(p.anchor, p.dir, len, j),
        None => false,
    }
}

/// How many of the first `n` patterns are placed over flat index `j`.
pub open spec fn coverage(reg: Seq<Option<Placement>>, pats: Seq<Seq<char>>, j: int, n: nat) -> nat
    decreases n,
{
    if n == 0 {
        0
    } else {
        coverage(reg, pats, j, (n - 1) as nat) + if covers(reg[n - 1], pats[n - 1].len() as int, j) {
            1nat
        } else {
            0nat
        }
    }
}

/// How many entries of the registry hold a placement.
pub open spec fn placed_count(reg: Seq<Option<Placement>>) -> nat
    decreases reg.len(),
{
    if reg.len() == 0 {
        0
    } else {
        placed_count(reg.drop_last()) + if reg.last() is Some { 1nat } else { 0nat }
    }
}

proof fn lemma_coverage_update(
    reg: Seq<Option<Placement>>,
    pats: Seq<Seq<char>>,
    j: int,
    n: nat,
    i: int,
    x: Option<Placement>,
)
    requires
        0 <= i < n <= reg.len(),
        n <= pats.len(),
    ensures
        coverage(reg.update(i, x), pats, j, n) + (if covers(reg[i], pats[i].len() as int, j) {
            1int
        } else {
            0int
        }) == coverage(reg, pats, j, n) + (if covers(x, pats[i].len() as int, j) {
            1int
        } else {
            0int
        }),
    decreases n,
{
    if i < n - 1 {
        lemma_coverage_update(reg, pats, j, (n - 1) as nat, i, x);
    } else {
        lemma_coverage_same(reg, reg.update(i, x), pats, j, (n - 1) as nat);
    }
}

proof fn lemma_coverage_same(
    a: Seq<Option<Placement>>,
    b: Seq<Option<Placement>>,
    pats: Seq<Seq<char>>,
    j: int,
    n: nat,
)
    requires
        n <= a.len(),
        n <= b.len(),
        forall|i: int| 0 <= i < n ==> a[i] == b[i],
    ensures
        coverage(a, pats, j, n) == coverage(b, pats, j, n),
    decreases n,
{
    if n > 0 {
        lemma_coverage_same(a, b, pats, j, (n - 1) as nat);
    }
}

proof fn lemma_coverage_positive(reg: Seq<Option<Placement>>, pats: Seq<Seq<char>>, j: int, n: nat, i: int)
    requires
        0 <= i < n,
        covers(reg[i], pats[i].len() as int, j),
    ensures
        coverage(reg, pats, j, n) >= 1,
    decreases n,
{
    if i < n - 1 {
        lemma_coverage_positive(reg, pats, j, (n - 1) as nat, i);
    }
}

proof fn lemma_coverage_bound(reg: Seq<Option<Placement>>, pats: Seq<Seq<char>>, j: int, n: nat, i: int)
    ensures
        coverage(reg, pats, j, n) <= n,
        0 <= i < n && !covers(reg[i], pats[i].len() as int, j) ==> coverage(reg, pats, j, n) < n,
    decreases n,
{
    if n > 0 {
        lemma_coverage_bound(reg, pats, j, (n - 1) as nat, i);
    }
}

proof fn lemma_placed_count_update(reg: Seq<Option<Placement>>, i: int, x: Option<Placement>)
    requires
        0 <= i < reg.len(),
    ensures
        placed_count(reg.update(i, x)) + (if reg[i] is Some { 1int } else { 0int })
            == placed_count(reg) + (if x is Some { 1int } else { 0int }),
        placed_count(reg) <= reg.len(),
    decreases reg.len(),
{
    let r2 = reg.update(i, x);
    if i == reg.len() - 1 {
        assert(r2.drop_last() =~= reg.drop_last());
        lemma_placed_count_bound(reg.drop_last());
    } else {
        assert(r2.drop_last() =~= reg.drop_last().update(i, x));
        lemma_placed_count_update(reg.drop_last(), i, x);
    }
}

proof fn lemma_placed_count_bound(reg: Seq<Option<Placement>>)
    ensures
        placed_count(reg) <= reg.len(),
    decreases reg.len(),
{
    if reg.len() > 0 {
        lemma_placed_count_bound(reg.drop_last());
    }
}

/// One proposed move: put pattern `pattern` at `anchor`, running along `dir`.
#[derive(Clone, Copy, Debug, PartialEq, Eq, Structural)]
pub struct Move {
    pub pattern: usize,
    pub anchor: Pos,
    pub dir: Dir,
}

/// What became of a proposed move.
#[derive(Clone, Copy, Debug, PartialEq, Eq, Structural)]
pub enum StepOutcome {
    /// The pattern conflicts with the grid at the proposed place; nothing changed.
    Infeasible,
    /// The move was applied and kept.
    Accepted,
    /// The move was applied, failed the acceptance test and was undone.
    Rejected,
}

/// The local-search state: the grid, the patterns, where each pattern lies, and the
/// running score (placed patterns, empty cells).
pub struct Optimizer {
    pub grid: Grid,
    pub patterns: Vec<Vec<char>>,
    pub placements: Vec<Option<Placement>>,
    pub placed: u64,
    pub empty: u64,
}

impl Optimizer {
    pub open spec fn pats(&self) -> Seq<Seq<char>> {
        self.patterns.deep_view()
    }

    pub open spec fn cells(&self) -> Seq<Cell> {
        self.grid.cells@
    }

    /// The score as one integer, ten times `placed + empty / 10`.
    pub open spec fn score10(&self) -> int {
        10 * self.placed + self.empty
    }

    /// The cells agree with the registry: each cell's count is the number of placed
    /// patterns over it, an unclaimed cell holds `EMPTY`, and each placed pattern's
    /// symbols stand in its cells. The score counts the placed patterns and the
    /// empty cells.
    pub open spec fn wf(&self) -> bool {
        &&& self.grid.wf()
        &&& self.placements@.len() == self.patterns@.len()
        &&& forall|i: int| 0 <= i < self.patterns@.len() ==> (#[trigger] self.patterns@[i])@.len() <= N
        &&& forall|i: int, k: int|
            0 <= i < self.patterns@.len() && 0 <= k < self.patterns@[i]@.len() ==> #[trigger] self.patterns@[i]@[k] != EMPTY
        &&& forall|i: int|
            0 <= i < self.placements@.len() && (#[trigger] self.placements@[i]) is Some
                ==> self.placements@[i]->Some_0.anchor.valid()
        &&& forall|j: int|
            0 <= j < N * N ==> (#[trigger] self.cells()[j]).count == coverage(
                self.placements@,
                self.pats(),
                j,
                self.patterns@.len() as nat,
            )
        &&& forall|j: int| 0 <= j < N * N && (#[trigger] self.cells()[j]).count == 0 ==> self.cells()[j] == empty_cell()
        &&& forall|i: int, j: int|
            0 <= i < self.patterns@.len() && 0 <= j < N * N && #[trigger] covers(
                self.placements@[i],
                self.pats()[i].len() as int,
                j,
            ) ==> (#[trigger] self.cells()[j]).symbol == self.pats()[i][offset_of(
                self.placements@[i]->Some_0.anchor,
                self.placements@[i]->Some_0.dir,
                j,
            )]
        &&& self.placed == placed_count(self.placements@)
        &&& self.empty == empty_count(self.cells())
    }

    /// The cells once pattern `i` is lifted off the grid (unchanged if it is not placed).
    pub open spec fn cells_without(&self, i: int) -> Seq<Cell> {
        match self.placements@[i] {
            Some(p) => released(self.cells(), self.pats()[i].len() as int, p.anchor, p.dir),
            None => self.cells(),
        }
    }
}

} // verus!

verus! {

proof fn lemma_coverage_none(reg: Seq<Option<Placement>>, pats: Seq<Seq<char>>, j: int, n: nat)
    requires
        n <= reg.len(),
        forall|i: int| 0 <= i < n ==> #[trigger] reg[i] is None,
    ensures
        coverage(reg, pats, j, n) == 0,
    decreases n,
{
    if n > 0 {
        lemma_coverage_none(reg, pats, j, (n - 1) as nat);
    }
}

proof fn lemma_placed_count_none(reg: Seq<Option<Placement>>)
    requires
        forall|i: int| 0 <= i < reg.len() ==> #[trigger] reg[i] is None,
    ensures
        placed_count(reg) == 0,
    decreases reg.len(),
{
    if reg.len() > 0 {
        lemma_placed_count_none(reg.drop_last());
    }
}

proof fn lemma_empty_count_all(cells: Seq<Cell>)
    requires
        forall|j: int| 0 <= j < cells.len() ==> (#[trigger] cells[j]).count == 0,
    ensures
        empty_count(cells) == cells.len(),
    decreases cells.len(),
{
    if cells.len() > 0 {
        lemma_empty_count_all(cells.drop_last());
    }
}

impl Optimizer {
    /// A fresh search over `patterns`: every pattern unplaced, every cell empty,
    /// score `(0, N * N)`.
    pub fn new(patterns: Vec<Vec<char>>) -> (o: Optimizer)
        requires
            forall|i: int| 0 <= i < patterns@.len() ==> (#[trigger] patterns@[i])@.len() <= N,
            forall|i: int, k: int| 0 <= i < patterns@.len() && 0 <= k < patterns@[i]@.len() ==> #[trigger] patterns@[i]@[k] != EMPTY,
        ensures
            o.wf(),
            o.patterns@ == patterns@,
            o.placements@ == Seq::new(patterns@.len(), |i: int| None::<Placement>),
            o.cells() == Seq::new((N * N) as nat, |j: int| empty_cell()),
            o.placed == 0,
            o.empty == N * N,
    {
        let grid = Grid::new();
        let mut placements: Vec<Option<Placement>> = Vec::new();
        let mut i: usize = 0;
        while i < patterns.len()
            invariant
                i <= patterns@.len(),
                placements@ == Seq::new(i as nat, |t: int| None::<Placement>),
            decreases patterns@.len() - i,
        {
            placements.push(None);
            i += 1;
            assert(placements@ =~= Seq::new(i as nat, |t: int| None::<Placement>));
        }
        let o = Optimizer { grid, patterns, placements, placed: 0, empty: (N * N) as u64 };
        proof {
            assert forall|j: int| 0 <= j < N * N implies (#[trigger] o.cells()[j]).count == coverage(
                o.placements@,
                o.pats(),
                j,
                o.patterns@.len() as nat,
            ) by {
                lemma_coverage_none(o.placements@, o.pats(), j, o.patterns@.len() as nat);
            }
            lemma_placed_count_none(o.placements@);
            lemma_empty_count_all(o.cells());
        }
        o
    }

    /// Lifts pattern `i` off the grid.
    fn unplace(&mut self, i: usize) -> (delta: i64)
        requires
            old(self).wf(),
            i < old(self).patterns@.len(),
            old(self).placements@[i as int] is Some,
        ensures
            final(self).wf(),
            final(self).patterns == old(self).patterns,
            final(self).placements@ == old(self).placements@.update(i as int, None),
            final(self).cells() == old(self).cells_without(i as int),
            final(self).placed == old(self).placed - 1,
            delta == final(self).empty - old(self).empty,
            0 <= delta <= N,
    {
        let p = self.placements[i].unwrap();
        let len = self.patterns[i].len();
        let ghost reg = self.placements@;
        let ghost pats = self.pats();
        let ghost m = self.patterns@.len() as nat;
        let ghost cells = self.cells();
        assert(pats[i as int] == self.patterns@[i as int]@);
        proof {
            assert forall|j: int| on_run(p.anchor, p.dir, len as int, j) implies #[trigger] cells[j].count > 0 by {
                lemma_cell_of_offset(p.anchor, p.dir, j);
                lemma_offset_of_cell(p.anchor, p.dir, offset_of(p.anchor, p.dir, j));
                assert(covers(reg[i as int], pats[i as int].len() as int, j));
                lemma_coverage_positive(reg, pats, j, m, i as int);
            }
        }
        let delta = self.grid.release(len, p.anchor, p.dir);
        self.placements.set(i, None);
        proof {
            lemma_placed_count_update(reg, i as int, None);
            lemma_empty_count_bound(self.cells());
        }
        self.placed = self.placed - 1;
        self.empty = (self.empty as i64 + delta) as u64;
        proof {
            assert(self.pats() == pats);
            let reg2 = self.placements@;
            assert forall|j: int| 0 <= j < N * N implies (#[trigger] self.cells()[j]).count == coverage(
                reg2,
                pats,
                j,
                m,
            ) by {
                lemma_coverage_update(reg, pats, j, m, i as int, None);
            }
            assert forall|i2: int, j: int|
                0 <= i2 < m && 0 <= j < N * N && #[trigger] covers(reg2[i2], pats[i2].len() as int, j)
                    implies (#[trigger] self.cells()[j]).symbol == pats[i2][offset_of(
                reg2[i2]->Some_0.anchor,
                reg2[i2]->Some_0.dir,
                j,
            )] by {
                assert(i2 != i);
                assert(reg2[i2] == reg[i2]);
                lemma_coverage_update(reg, pats, j, m, i as int, None);
                lemma_coverage_positive(reg2, pats, j, m, i2);
            }
        }
        delta
    }

    /// Puts pattern `i`, which is not placed, at `p`, where it fits.
    fn place(&mut self, i: usize, p: Placement) -> (delta: i64)
        requires
            old(self).wf(),
            i < old(self).patterns@.len(),
            old(self).placements@[i as int] is None,
            p.anchor.valid(),
            fits(old(self).cells(), old(self).pats()[i as int], p.anchor, p.dir),
        ensures
            final(self).wf(),
            final(self).patterns == old(self).patterns,
            final(self).placements@ == old(self).placements@.update(i as int, Some(p)),
            final(self).cells() == claimed(old(self).cells(), old(self).pats()[i as int], p.anchor, p.dir),
            final(self).placed == old(self).placed + 1,
            delta == final(self).empty - old(self).empty,
            -(N as int) <= delta <= 0,
    {
        let ghost reg = self.placements@;
        let ghost pats = self.pats();
        let ghost m = self.patterns@.len() as nat;
        let ghost cells = self.cells();
        let count = self.patterns.len();
        assert(count as int <= u64::MAX);
        assert(pats[i as int] == self.patterns@[i as int]@);
        proof {
            assert forall|j: int| on_run(p.anchor, p.dir, pats[i as int].len() as int, j) implies #[trigger] cells[j].count < u64::MAX by {
                lemma_cell_of_offset(p.anchor, p.dir, j);
                lemma_offset_of_cell(p.anchor, p.dir, offset_of(p.anchor, p.dir, j));
                lemma_coverage_bound(reg, pats, j, m, i as int);
            }
            lemma_placed_count_update(reg, i as int, Some(p));
            lemma_placed_count_bound(reg.update(i as int, Some(p)));
            lemma_empty_count_bound(cells);
        }
        let delta = self.grid.claim(&self.patterns[i], p.anchor, p.dir);
        self.placements.set(i, Some(p));
        self.placed = self.placed + 1;
        self.empty = (self.empty as i64 + delta) as u64;
        proof {
            assert(self.pats() == pats);
            let reg2 = self.placements@;
            assert forall|j: int| 0 <= j < N * N implies (#[trigger] self.cells()[j]).count == coverage(
                reg2,
                pats,
                j,
                m,
            ) by {
                lemma_coverage_update(reg, pats, j, m, i as int, Some(p));
            }
            assert forall|i2: int, j: int|
                0 <= i2 < m && 0 <= j < N * N && #[trigger] covers(reg2[i2], pats[i2].len() as int, j)
                    implies (#[trigger] self.cells()[j]).symbol == pats[i2][offset_of(
                reg2[i2]->Some_0.anchor,
                reg2[i2]->Some_0.dir,
                j,
            )] by {
                if i2 != i && on_run(p.anchor, p.dir, pats[i as int].len() as int, j) {
                    lemma_coverage_positive(reg, pats, j, m, i2);
                    lemma_cell_of_offset(p.anchor, p.dir, j);
                    assert(cells[cell_at(p.anchor, p.dir, offset_of(p.anchor, p.dir, j))] == cells[j]);
                }
            }
        }
        delta
    }
}

} // verus!

verus! {

/// Whether the acceptance test keeps a move that changes the score by `delta10`
/// (in tenths) given the draw `draw`: a move that does not lower the score is always
/// kept; one that lowers it by `d` tenths is kept when `draw <= cutoffs[d]`.
pub open spec fn accepts(delta10: int, draw: u32, cutoffs: Seq<u64>) -> bool {
    delta10 >= 0 || (draw as u64) <= cutoffs[-delta10]
}


/// What one step from `s` with move `mv`, draw `draw` and cutoffs `cutoffs` leaves:
/// the outcome and score change `r`, and the state `t`.
pub open spec fn step_post(
    s: Optimizer,
    t: Optimizer,
    mv: Move,
    draw: u32,
    cutoffs: Seq<u64>,
    r: (StepOutcome, i64),
) -> bool {
    let i = mv.pattern as int;
    let p = Placement { anchor: mv.anchor, dir: mv.dir };
    &&& t.wf()
    &&& t.patterns == s.patterns
    &&& t.placed >= s.placed
    &&& (r.0 == StepOutcome::Infeasible) == !fits(s.cells_without(i), s.pats()[i], mv.anchor, mv.dir)
    &&& r.0 == StepOutcome::Infeasible ==> r.1 == 0
    &&& r.0 != StepOutcome::Infeasible ==> r.1 == s.move_delta(i, p)
    &&& r.0 != StepOutcome::Infeasible && r.1 >= 0 ==> r.0 == StepOutcome::Accepted
    &&& (r.0 == StepOutcome::Accepted) == (r.0 != StepOutcome::Infeasible && accepts(r.1 as int, draw, cutoffs))
    &&& r.0 == StepOutcome::Accepted ==> {
        &&& t.placements@ == s.moved_placements(i, p)
        &&& t.cells() == s.moved_cells(i, p)
        &&& t.score10() == s.score10() + r.1
    }
    &&& r.0 != StepOutcome::Accepted ==> {
        &&& t.placements@ == s.placements@
        &&& t.cells() == s.cells()
        &&& t.placed == s.placed
        &&& t.empty == s.empty
    }
}

/// Whether some single step, with a move of one of the patterns to a valid anchor
/// and any draw, leads from `s` to `t`.
pub open spec fn step_taken(s: Optimizer, t: Optimizer, cutoffs: Seq<u64>) -> bool {
    exists|mv: Move, draw: u32, r: (StepOutcome, i64)|
        mv.pattern < s.patterns@.len() && mv.anchor.valid() && #[trigger] step_post(s, t, mv, draw, cutoffs, r)
}

/// Whether each state of `trace` is one step on from the one before it.
pub open spec fn is_trace(trace: Seq<Optimizer>, cutoffs: Seq<u64>) -> bool {
    forall|k: int| 0 <= k < trace.len() - 1 ==> step_taken(#[trigger] trace[k], trace[k + 1], cutoffs)
}

/// Whether `n` successive steps lead from `s` to `t`.
pub open spec fn steps_to(s: Optimizer, t: Optimizer, n: nat, cutoffs: Seq<u64>) -> bool {
    exists|trace: Seq<Optimizer>|
        trace.len() == n + 1 && trace[0] == s && trace[n as int] == t && #[trigger] is_trace(trace, cutoffs)
}

impl Optimizer {
    /// The placements after a move of pattern `i` to `p` is applied.
    pub open spec fn moved_placements(&self, i: int, p: Placement) -> Seq<Option<Placement>> {
        self.placements@.update(i, Some(p))
    }

    /// The cells after a move of pattern `i` to `p` is applied.
    pub open spec fn moved_cells(&self, i: int, p: Placement) -> Seq<Cell> {
        claimed(self.cells_without(i), self.pats()[i], p.anchor, p.dir)
    }

    /// The score change, in tenths, of moving pattern `i` to `p`.
    pub open spec fn move_delta(&self, i: int, p: Placement) -> int {
        10 * placed_count(self.moved_placements(i, p)) + empty_count(self.moved_cells(i, p))
            - self.score10()
    }

    proof fn lemma_counts_below_max(&self, i: int)
        requires
            self.wf(),
            0 <= i < self.patterns@.len(),
            self.placements@[i] is None,
            self.patterns@.len() <= u64::MAX,
        ensures
            forall|j: int| 0 <= j < N * N ==> (#[trigger] self.cells()[j]).count < u64::MAX,
    {
        assert forall|j: int| 0 <= j < N * N implies (#[trigger] self.cells()[j]).count < u64::MAX by {
            lemma_coverage_bound(self.placements@, self.pats(), j, self.patterns@.len() as nat, i);
        }
    }

    proof fn lemma_placed_run(&self, i: int)
        requires
            self.wf(),
            0 <= i < self.patterns@.len(),
            self.placements@[i] is Some,
        ensures
            forall|j: int|
                #[trigger] on_run(
                    self.placements@[i]->Some_0.anchor,
                    self.placements@[i]->Some_0.dir,
                    self.pats()[i].len() as int,
                    j,
                ) ==> self.cells()[j].count > 0 && self.cells()[j].symbol == self.pats()[i][offset_of(
                    self.placements@[i]->Some_0.anchor,
                    self.placements@[i]->Some_0.dir,
                    j,
                )],
    {
        let q = self.placements@[i]->Some_0;
        assert forall|j: int| #[trigger] on_run(q.anchor, q.dir, self.pats()[i].len() as int, j)
            implies self.cells()[j].count > 0 && self.cells()[j].symbol == self.pats()[i][offset_of(
            q.anchor,
            q.dir,
            j,
        )] by {
            assert(covers(self.placements@[i], self.pats()[i].len() as int, j));
            lemma_coverage_positive(self.placements@, self.pats(), j, self.patterns@.len() as nat, i);
        }
    }

    /// One iteration of the search: lift pattern `mv.pattern` off the grid, try it at
    /// `mv.anchor` along `mv.dir`, and keep or undo the move by the acceptance test.
    /// Returns what became of the move and its score change in tenths.
    pub fn step(&mut self, mv: Move, draw: u32, cutoffs: &Vec<u64>) -> (r: (StepOutcome, i64))
        requires
            old(self).wf(),
            mv.pattern < old(self).patterns@.len(),
            mv.anchor.valid(),
            cutoffs@.len() > N,
        ensures
            step_post(*old(self), *final(self), mv, draw, cutoffs@, r),
    {
        let i = mv.pattern;
        let p = Placement { anchor: mv.anchor, dir: mv.dir };
        let ghost start = *self;
        let ghost pat = self.pats()[i as int];
        let count = self.patterns.len();
        assert(count as int <= u64::MAX);
        let prev = self.placements[i];
        let mut delta: i64 = 0;
        match prev {
            Some(q) => {
                proof {
                    self.lemma_placed_run(i as int);
                    lemma_release_claim_round_trip(self.cells(), pat, q.anchor, q.dir);
                }
                let d = self.unplace(i);
                delta = d - 10;
            },
            None => {},
        }
        let ghost mid = *self;
        assert(pat == self.patterns@[i as int]@);
        if !self.grid.can_place(&self.patterns[i], mv.anchor, mv.dir) {
            match prev {
                Some(q) => {
                    self.place(i, q);
                    assert(self.placements@ =~= start.placements@);
                },
                None => {},
            }
            return (StepOutcome::Infeasible, 0);
        }
        proof {
            mid.lemma_counts_below_max(i as int);
        }
        let d = self.place(i, p);
        delta = delta + 10 + d;
        assert(self.placements@ =~= start.moved_placements(i as int, p));
        let accept = delta >= 0 || (draw as u64) <= cutoffs[(-delta) as usize];
        proof {
            lemma_placed_count_update(start.placements@, i as int, Some(p));
        }
        if accept {
            return (StepOutcome::Accepted, delta);
        }
        proof {
            lemma_claim_release_round_trip(mid.cells(), pat, p.anchor, p.dir);
        }
        self.unplace(i);
        match prev {
            Some(q) => {
                self.place(i, q);
            },
            None => {},
        }
        assert(self.placements@ =~= start.placements@);
        (StepOutcome::Rejected, delta)
    }
}

} // verus!

verus! {

/// In every well-formed state the occupied cells and the tracked empty-cell count
/// together make up the whole grid.
pub proof fn lemma_occupied_plus_empty(o: &Optimizer)
    requires
        o.wf(),
    ensures
        occupied_count(o.cells()) + o.empty == N * N,
{
    lemma_cells_partition(o.cells());
}

/// In every well-formed state each placed pattern still fits the grid with its own
/// claim lifted: no other placement has overwritten one of its cells.
pub proof fn lemma_placed_pattern_fits(o: &Optimizer, i: int)
    requires
        o.wf(),
        0 <= i < o.patterns@.len(),
        o.placements@[i] is Some,
    ensures
        fits(
            o.cells_without(i),
            o.pats()[i],
            o.placements@[i]->Some_0.anchor,
            o.placements@[i]->Some_0.dir,
        ),
        fits(o.cells(), o.pats()[i], o.placements@[i]->Some_0.anchor, o.placements@[i]->Some_0.dir),
{
    let q = o.placements@[i]->Some_0;
    o.lemma_placed_run(i);
    lemma_release_claim_round_trip(o.cells(), o.pats()[i], q.anchor, q.dir);
    assert forall|k: int| 0 <= k < o.pats()[i].len() implies {
        let c = #[trigger] o.cells()[cell_at(q.anchor, q.dir, k)];
        c.count == 0 || c.symbol == o.pats()[i][k]
    } by {
        lemma_offset_of_cell(q.anchor, q.dir, k);
        assert(on_run(q.anchor, q.dir, o.pats()[i].len() as int, cell_at(q.anchor, q.dir, k)));
    }
}

} // verus!

verus! {

/// The temperature after `elapsed` of a budget of `limit`, falling linearly from
/// `start` to `end` and staying at `end` once the budget is spent.
pub open spec fn temperature_at(start: int, end: int, elapsed: int, limit: int) -> int {
    let used = if elapsed < limit { elapsed } else { limit };
    start - (start - end) * used / limit
}

/// The cooling schedule in integer units (for example milli-degrees over
/// milliseconds).
pub fn temperature(start: u64, end: u64, elapsed: u64, limit: u64) -> (t: u64)
    requires
        end <= start,
        limit > 0,
        start <= u32::MAX,
        limit <= u32::MAX,
    ensures
        t == temperature_at(start as int, end as int, elapsed as int, limit as int),
        end <= t <= start,
{
    let used = if elapsed < limit { elapsed } else { limit };
    assert((start - end) * used <= (start - end) * limit) by (nonlinear_arith)
        requires
            used <= limit,
            end <= start,
    ;
    assert((start - end) * used / (limit as int) <= start - end) by (nonlinear_arith)
        requires
            (start - end) * used <= (start - end) * limit,
            limit > 0,
            end <= start,
    ;
    assert((start - end) * used <= u32::MAX * u32::MAX) by (nonlinear_arith)
        requires
            start - end <= u32::MAX,
            used <= u32::MAX,
            end <= start,
    ;
    start - (start - end) * used / limit
}

impl Optimizer {
    /// Where pattern `i` lies, if it is placed.
    pub fn placement(&self, i: usize) -> (p: Option<Placement>)
        requires
            i < self.placements@.len(),
        ensures
            p == self.placements@[i as int],
    {
        self.placements[i]
    }

    /// The score as (placed patterns, empty cells).
    pub fn score(&self) -> (s: (u64, u64))
        ensures
            s == (self.placed, self.empty),
    {
        (self.placed, self.empty)
    }

    /// The grid as `N` rows of `N` characters, `.` for an empty cell.
    pub fn render(&self) -> (rows: Vec<Vec<char>>)
        requires
            self.wf(),
        ensures
            rows@.len() == N,
            forall|r: int|
                0 <= r < N ==> (#[trigger] rows@[r])@ == Seq::new(
                    N as nat,
                    |c: int| self.cells()[r * N + c].symbol,
                ),
    {
        self.grid.render()
    }

    /// Runs `iterations` steps with moves and acceptance draws taken from `rng`,
    /// at the fixed acceptance cutoffs `cutoffs`.
    pub fn run(&mut self, rng: &mut crate::random::RandomSource, iterations: u64, cutoffs: &Vec<u64>)
        requires
            old(self).wf(),
            cutoffs@.len() > N,
        ensures
            final(self).wf(),
            final(self).patterns == old(self).patterns,
            final(self).placed >= old(self).placed,
            old(self).patterns@.len() == 0 ==> *final(self) == *old(self),
            old(self).patterns@.len() > 0 ==> steps_to(*old(self), *final(self), iterations as nat, cutoffs@),
    {
        if self.patterns.len() == 0 {
            return;
        }
        let mut t: u64 = 0;
        let ghost mut trace: Seq<Optimizer> = seq![*self];
        while t < iterations
            invariant
                self.wf(),
                self.patterns == old(self).patterns,
                self.patterns@.len() > 0,
                cutoffs@.len() > N,
                t <= iterations,
                self.placed >= old(self).placed,
                trace.len() == t + 1,
                trace[0] == *old(self),
                trace[t as int] == *self,
                is_trace(trace, cutoffs@),
            decreases iterations - t,
        {
            let ghost before = *self;
            let mv = rng.propose(self.patterns.len());
            let draw = rng.word();
            let r = self.step(mv, draw, cutoffs);
            proof {
                assert(step_post(before, *self, mv, draw, cutoffs@, r));
                assert(step_taken(before, *self, cutoffs@));
                let longer = trace.push(*self);
                assert forall|k: int| 0 <= k < longer.len() - 1 implies step_taken(
                    #[trigger] longer[k],
                    longer[k + 1],
                    cutoffs@,
                ) by {
                    if k < t {
                        assert(longer[k] == trace[k] && longer[k + 1] == trace[k + 1]);
                    }
                }
                trace = longer;
            }
            t += 1;
        }
        assert(steps_to(*old(self), *self, iterations as nat, cutoffs@)) by {
            assert(trace.len() == iterations + 1);
        }
    }
}

} // verus!

verus! {

proof fn lemma_coverage_witness(reg: Seq<Option<Placement>>, pats: Seq<Seq<char>>, j: int, n: nat) -> (i: int)
    requires
        coverage(reg, pats, j, n) > 0,
    ensures
        0 <= i < n,
        covers(reg[i], pats[i].len() as int, j),
    decreases n,
{
    if covers(reg[n - 1], pats[n - 1].len() as int, j) {
        n - 1
    } else {
        lemma_coverage_witness(reg, pats, j, (n - 1) as nat)
    }
}

/// Two well-formed states over the same patterns with the same placements have the
/// same cells and the same score: the grid is a function of where the patterns lie.
pub proof fn lemma_state_determined_by_placements(a: &Optimizer, b: &Optimizer)
    requires
        a.wf(),
        b.wf(),
        a.pats() == b.pats(),
        a.placements@ == b.placements@,
    ensures
        a.cells() == b.cells(),
        a.placed == b.placed,
        a.empty == b.empty,
{
    assert(a.patterns@.len() == b.patterns@.len()) by {
        assert(a.pats().len() == a.patterns@.len());
        assert(b.pats().len() == b.patterns@.len());
    }
    let m = a.patterns@.len() as nat;
    assert forall|j: int| 0 <= j < N * N implies #[trigger] a.cells()[j] == b.cells()[j] by {
        if a.cells()[j].count > 0 {
            let i = lemma_coverage_witness(a.placements@, a.pats(), j, m);
            assert(covers(b.placements@[i], b.pats()[i].len() as int, j));
        }
    }
    assert(a.cells() =~= b.cells());
}

} // verus!

verus! {

/// A step is a function of the state, the move, the draw and the cutoffs: two steps
/// from one state with the same move, draw and cutoffs give the same outcome, the
/// same score change and the same state.
pub proof fn lemma_step_deterministic(
    s: Optimizer,
    t1: Optimizer,
    t2: Optimizer,
    mv: Move,
    draw: u32,
    cutoffs: Seq<u64>,
    r1: (StepOutcome, i64),
    r2: (StepOutcome, i64),
)
    requires
        step_post(s, t1, mv, draw, cutoffs, r1),
        step_post(s, t2, mv, draw, cutoffs, r2),
    ensures
        r1 == r2,
        t1.patterns == t2.patterns,
        t1.placements@ == t2.placements@,
        t1.cells() == t2.cells(),
        t1.placed == t2.placed,
        t1.empty == t2.empty,
{
    lemma_state_determined_by_placements(&t1, &t2);
}

} // verus!

verus! {

/// Number of cells that hold `EMPTY`.
pub open spec fn dot_cells(cells: Seq<Cell>) -> nat
    decreases cells.len(),
{
    if cells.len() == 0 {
        0
    } else {
        dot_cells(cells.drop_last()) + if cells.last().symbol == EMPTY { 1nat } else { 0nat }
    }
}

proof fn lemma_dot_cells_empty_count(cells: Seq<Cell>)
    requires
        forall|j: int| 0 <= j < cells.len() ==> ((#[trigger] cells[j]).symbol == EMPTY) == (cells[j].count == 0),
    ensures
        dot_cells(cells) == empty_count(cells),
    decreases cells.len(),
{
    if cells.len() > 0 {
        let d = cells.drop_last();
        assert forall|j: int| 0 <= j < d.len() implies ((#[trigger] d[j]).symbol == EMPTY) == (d[j].count == 0) by {
            assert(d[j] == cells[j]);
        }
        lemma_dot_cells_empty_count(d);
    }
}

proof fn lemma_dots_flat(rows: Seq<Seq<char>>, cells: Seq<Cell>, n: int)
    requires
        0 <= n <= N,
        rows.len() == N,
        cells.len() == N * N,
        forall|r: int| 0 <= r < N ==> (#[trigger] rows[r]) == Seq::new(N as nat, |c: int| cells[r * N + c].symbol),
    ensures
        dots(rows, n) == dot_cells(cells.subrange(0, n * N)),
    decreases n,
{
    if n > 0 {
        lemma_dots_flat(rows, cells, n - 1);
        lemma_row_flat(rows, cells, n - 1, N as int);
    }
}

proof fn lemma_row_flat(rows: Seq<Seq<char>>, cells: Seq<Cell>, r: int, c: int)
    requires
        0 <= r < N,
        0 <= c <= N,
        rows.len() == N,
        cells.len() == N * N,
        forall|x: int| 0 <= x < N ==> (#[trigger] rows[x]) == Seq::new(N as nat, |y: int| cells[x * N + y].symbol),
    ensures
        dot_cells(cells.subrange(0, r * N)) + row_dots(rows[r], c) == dot_cells(cells.subrange(0, r * N + c)),
    decreases c,
{
    assert(0 <= r * N && r * N + N <= N * N) by (nonlinear_arith)
        requires
            0 <= r < N,
    ;
    if c > 0 {
        lemma_row_flat(rows, cells, r, c - 1);
        let x = r * N + c;
        assert(cells.subrange(0, x).drop_last() =~= cells.subrange(0, x - 1));
        assert(rows[r][c - 1] == cells[r * N + c - 1].symbol);
    }
}

/// In every well-formed state the cells that hold `EMPTY` are exactly the
/// unclaimed ones, so the rendered grid shows as many `.` as the tracked
/// empty-cell count.
pub proof fn lemma_rendered_dots(o: &Optimizer, rows: Seq<Seq<char>>)
    requires
        o.wf(),
        rows.len() == N,
        forall|r: int| 0 <= r < N ==> (#[trigger] rows[r]) == Seq::new(N as nat, |c: int| o.cells()[r * N + c].symbol),
    ensures
        forall|j: int| 0 <= j < N * N ==> ((#[trigger] o.cells()[j]).symbol == EMPTY) == (o.cells()[j].count == 0),
        dots(rows, N as int) == o.empty,
{
    let m = o.patterns@.len() as nat;
    assert forall|j: int| 0 <= j < N * N implies ((#[trigger] o.cells()[j]).symbol == EMPTY) == (o.cells()[j].count == 0) by {
        if o.cells()[j].count > 0 {
            let i = lemma_coverage_witness(o.placements@, o.pats(), j, m);
            let q = o.placements@[i]->Some_0;
            let k = offset_of(q.anchor, q.dir, j);
            assert(o.pats()[i] == o.patterns@[i]@);
            assert(o.patterns@[i]@[k] != EMPTY);
        }
    }
    lemma_dot_cells_empty_count(o.cells());
    lemma_dots_flat(rows, o.cells(), N as int);
    assert(o.cells().subrange(0, N * N) =~= o.cells());
}

} // verus!
