use vstd::prelude::*;
use crate::geometry::{
    Pos, Dir, N, cell_at, offset_of, step_from, lemma_offset_of_cell, lemma_cell_of_offset,
    lemma_step_succ, lemma_step_zero,
};

verus! {

/// The symbol that an unclaimed cell holds.
pub const EMPTY: char = '.';

/// One grid cell: how many active placements claim it, and the symbol they agreed on.
#[derive(Clone, Copy, Debug, PartialEq, Eq, Structural)]
pub struct Cell {
    pub count: u64,
    pub symbol: char,
}

/// The N x N toroidal grid, stored row by row.
pub struct Grid {
    pub cells: Vec<Cell>,
}

pub open spec fn empty_cell() -> Cell {
    Cell { count: 0, symbol: EMPTY }
}

/// The cell after one more placement claims it with symbol `s`.
pub open spec fn claim_cell(c: Cell, s: char) -> Cell {
    Cell { count: (c.count + 1) as u64, symbol: s }
}

/// The cell after one of its claimants lets it go.
pub open spec fn release_cell(c: Cell) -> Cell {
    if c.count <= 1 {
        empty_cell()
    } else {
        Cell { count: (c.count - 1) as u64, symbol: c.symbol }
    }
}

/// Whether flat index `j` lies on the first `len` cells of the run at `anchor` along `dir`.
pub open spec fn on_run(anchor: Pos, dir: Dir, len: int, j: int) -> bool {
    0 <= j < N * N && 0 <= offset_of(anchor, dir, j) < len
}

/// Whether `pat` fits the run at `anchor` along `dir`: each of its cells is empty or
/// already holds the symbol that `pat` needs there.
pub open spec fn fits(cells: Seq<Cell>, pat: Seq<char>, anchor: Pos, dir: Dir) -> bool {
    forall|k: int|
        0 <= k < pat.len() ==> {
            let c = #[trigger] cells[cell_at(anchor, dir, k)];
            c.count == 0 || c.symbol == pat[k]
        }
}

/// The cells after `pat` claims the run at `anchor` along `dir`.
pub open spec fn claimed(cells: Seq<Cell>, pat: Seq<char>, anchor: Pos, dir: Dir) -> Seq<Cell> {
    Seq::new(
        cells.len(),
        |j: int|
            if on_run(anchor, dir, pat.len() as int, j) {
                claim_cell(cells[j], pat[offset_of(anchor, dir, j)])
            } else {
                cells[j]
            },
    )
}

/// The cells after a claim of `len` cells at `anchor` along `dir` is let go.
pub open spec fn released(cells: Seq<Cell>, len: int, anchor: Pos, dir: Dir) -> Seq<Cell> {
    Seq::new(
        cells.len(),
        |j: int| if on_run(anchor, dir, len, j) { release_cell(cells[j]) } else { cells[j] },
    )
}

/// Number of cells that no placement claims.
pub open spec fn empty_count(cells: Seq<Cell>) -> nat
    decreases cells.len(),
{
    if cells.len() == 0 {
        0
    } else {
        empty_count(cells.drop_last()) + if cells.last().count == 0 { 1nat } else { 0nat }
    }
}

/// Number of cells that at least one placement claims.
pub open spec fn occupied_count(cells: Seq<Cell>) -> nat
    decreases cells.len(),
{
    if cells.len() == 0 {
        0
    } else {
        occupied_count(cells.drop_last()) + if cells.last().count > 0 { 1nat } else { 0nat }
    }
}

/// Occupied and empty cells together are all the cells.
pub proof fn lemma_cells_partition(cells: Seq<Cell>)
    ensures
        occupied_count(cells) + empty_count(cells) == cells.len(),
    decreases cells.len(),
{
    if cells.len() > 0 {
        lemma_cells_partition(cells.drop_last());
    }
}

pub proof fn lemma_empty_count_bound(cells: Seq<Cell>)
    ensures
        empty_count(cells) <= cells.len(),
    decreases cells.len(),
{
    if cells.len() > 0 {
        lemma_empty_count_bound(cells.drop_last());
    }
}

/// Overwriting one cell changes the empty count by what that cell changed.
pub proof fn lemma_empty_count_update(cells: Seq<Cell>, j: int, v: Cell)
    requires
        0 <= j < cells.len(),
    ensures
        empty_count(cells.update(j, v)) + (if cells[j].count == 0 { 1int } else { 0int })
            == empty_count(cells) + (if v.count == 0 { 1int } else { 0int }),
    decreases cells.len(),
{
    let s2 = cells.update(j, v);
    if j == cells.len() - 1 {
        assert(s2.drop_last() =~= cells.drop_last());
    } else {
        assert(s2.drop_last() =~= cells.drop_last().update(j, v));
        lemma_empty_count_update(cells.drop_last(), j, v);
    }
}

impl Grid {
    pub open spec fn wf(&self) -> bool {
        self.cells@.len() == N * N
    }

    /// A grid with every cell empty.
    pub fn new() -> (g: Grid)
        ensures
            g.wf(),
            g.cells@ == Seq::new((N * N) as nat, |j: int| empty_cell()),
    {
        let mut cells: Vec<Cell> = Vec::new();
        let mut j: usize = 0;
        while j < N * N
            invariant
                j <= N * N,
                cells@ == Seq::new(j as nat, |i: int| empty_cell()),
            decreases N * N - j,
        {
            cells.push(Cell { count: 0, symbol: EMPTY });
            j += 1;
            assert(cells@ =~= Seq::new(j as nat, |i: int| empty_cell()));
        }
        Grid { cells }
    }

    /// Whether `pat` can claim the run at `anchor` along `dir` without a conflict.
    pub fn can_place(&self, pat: &Vec<char>, anchor: Pos, dir: Dir) -> (r: bool)
        requires
            self.wf(),
            anchor.valid(),
            pat@.len() <= N,
        ensures
            r == fits(self.cells@, pat@, anchor, dir),
    {
        let mut p = anchor;
        let mut k: usize = 0;
        proof {
            lemma_step_zero(anchor, dir);
        }
        while k < pat.len()
            invariant
                self.wf(),
                anchor.valid(),
                pat@.len() <= N,
                k <= pat@.len(),
                p == step_from(anchor, dir, k as int),
                forall|t: int|
                    0 <= t < k ==> {
                        let c = #[trigger] self.cells@[cell_at(anchor, dir, t)];
                        c.count == 0 || c.symbol == pat@[t]
                    },
            decreases pat@.len() - k,
        {
            proof {
                lemma_offset_of_cell(anchor, dir, k as int);
            }
            let c = self.cells[p.flat_index()];
            if c.count != 0 && c.symbol != pat[k] {
                assert(self.cells@[cell_at(anchor, dir, k as int)] == c);
                return false;
            }
            proof {
                lemma_step_succ(anchor, dir, k as int);
            }
            p = p.next(dir);
            k += 1;
        }
        true
    }

    /// Claims the run at `anchor` along `dir` for `pat`; returns the change in the
    /// number of empty cells.
    pub fn claim(&mut self, pat: &Vec<char>, anchor: Pos, dir: Dir) -> (delta: i64)
        requires
            old(self).wf(),
            anchor.valid(),
            pat@.len() <= N,
            fits(old(self).cells@, pat@, anchor, dir),
            forall|j: int|
                on_run(anchor, dir, pat@.len() as int, j) ==> #[trigger] old(self).cells@[j].count
                    < u64::MAX,
        ensures
            final(self).wf(),
            final(self).cells@ == claimed(old(self).cells@, pat@, anchor, dir),
            delta == empty_count(final(self).cells@) - empty_count(old(self).cells@),
            -(pat@.len() as int) <= delta <= 0,
            (forall|j: int| on_run(anchor, dir, pat@.len() as int, j) ==> #[trigger] old(self).cells@[j].count == 0)
                ==> delta == -(pat@.len() as int),
    {
        let ghost start = self.cells@;
        let mut p = anchor;
        let mut k: usize = 0;
        proof {
            lemma_step_zero(anchor, dir);
        }
        let mut delta: i64 = 0;
        while k < pat.len()
            invariant
                self.wf(),
                start.len() == N * N,
                anchor.valid(),
                pat@.len() <= N,
                k <= pat@.len(),
                p == step_from(anchor, dir, k as int),
                fits(start, pat@, anchor, dir),
                forall|j: int|
                    on_run(anchor, dir, pat@.len() as int, j) ==> #[trigger] start[j].count
                        < u64::MAX,
                self.cells@ == claimed(start, pat@.subrange(0, k as int), anchor, dir),
                delta == empty_count(self.cells@) - empty_count(start),
                -(k as int) <= delta <= 0,
                (forall|j: int| on_run(anchor, dir, pat@.len() as int, j) ==> #[trigger] start[j].count == 0)
                    ==> delta == -(k as int),
            decreases pat@.len() - k,
        {
            proof {
                lemma_offset_of_cell(anchor, dir, k as int);
            }
            let ghost before = self.cells@;
            let ghost j = cell_at(anchor, dir, k as int);
            let i = p.flat_index();
            assert(!on_run(anchor, dir, k as int, j));
            assert(before[j] == start[j]);
            assert(on_run(anchor, dir, pat@.len() as int, j));
            let c = self.cells[i];
            assert(c.count == 0 || c.symbol == pat@[k as int]) by {
                assert(start[cell_at(anchor, dir, k as int)] == c);
            }
            let s = pat[k];
            if c.count == 0 {
                delta -= 1;
            }
            self.cells.set(i, Cell { count: c.count + 1, symbol: s });
            proof {
                lemma_empty_count_update(before, j, claim_cell(c, s));
                assert forall|t: int| 0 <= t < N * N implies #[trigger] self.cells@[t]
                    == claimed(start, pat@.subrange(0, k + 1), anchor, dir)[t] by {
                    if t != j && 0 <= offset_of(anchor, dir, t) {
                        lemma_cell_of_offset(anchor, dir, t);
                    }
                }
                assert(self.cells@ =~= claimed(start, pat@.subrange(0, k + 1), anchor, dir));
            }
            proof {
                lemma_step_succ(anchor, dir, k as int);
            }
            p = p.next(dir);
            k += 1;
        }
        assert(pat@.subrange(0, k as int) =~= pat@);
        delta
    }

    /// Lets go of a claim of `len` cells at `anchor` along `dir`; returns the change in
    /// the number of empty cells.
    pub fn release(&mut self, len: usize, anchor: Pos, dir: Dir) -> (delta: i64)
        requires
            old(self).wf(),
            anchor.valid(),
            len <= N,
            forall|j: int|
                on_run(anchor, dir, len as int, j) ==> #[trigger] old(self).cells@[j].count > 0,
        ensures
            final(self).wf(),
            final(self).cells@ == released(old(self).cells@, len as int, anchor, dir),
            delta == empty_count(final(self).cells@) - empty_count(old(self).cells@),
            0 <= delta <= len,
            (forall|j: int| on_run(anchor, dir, len as int, j) ==> #[trigger] old(self).cells@[j].count == 1)
                ==> delta == len,
    {
        let ghost start = self.cells@;
        let mut p = anchor;
        let mut k: usize = 0;
        proof {
            lemma_step_zero(anchor, dir);
        }
        let mut delta: i64 = 0;
        while k < len
            invariant
                self.wf(),
                start.len() == N * N,
                anchor.valid(),
                len <= N,
                k <= len,
                p == step_from(anchor, dir, k as int),
                forall|j: int| on_run(anchor, dir, len as int, j) ==> #[trigger] start[j].count > 0,
                self.cells@ == released(start, k as int, anchor, dir),
                delta == empty_count(self.cells@) - empty_count(start),
                0 <= delta <= k,
                (forall|j: int| on_run(anchor, dir, len as int, j) ==> #[trigger] start[j].count == 1)
                    ==> delta == k,
            decreases len - k,
        {
            proof {
                lemma_offset_of_cell(anchor, dir, k as int);
            }
            let ghost before = self.cells@;
            let ghost j = cell_at(anchor, dir, k as int);
            let i = p.flat_index();
            assert(!on_run(anchor, dir, k as int, j));
            assert(before[j] == start[j]);
            assert(on_run(anchor, dir, len as int, j));
            let c = self.cells[i];
            let next = if c.count == 1 {
                delta += 1;
                Cell { count: 0, symbol: EMPTY }
            } else {
                Cell { count: c.count - 1, symbol: c.symbol }
            };
            self.cells.set(i, next);
            proof {
                lemma_empty_count_update(before, j, release_cell(c));
                assert forall|t: int| 0 <= t < N * N implies #[trigger] self.cells@[t]
                    == released(start, k + 1, anchor, dir)[t] by {
                    if t != j && 0 <= offset_of(anchor, dir, t) {
                        lemma_cell_of_offset(anchor, dir, t);
                    }
                }
                assert(self.cells@ =~= released(start, k + 1, anchor, dir));
            }
            proof {
                lemma_step_succ(anchor, dir, k as int);
            }
            p = p.next(dir);
            k += 1;
        }
        delta
    }

    /// The grid as `N` rows of `N` characters, `.` for an empty cell.
    pub fn render(&self) -> (rows: Vec<Vec<char>>)
        requires
            self.wf(),
        ensures
            rows@.len() == N,
            forall|r: int|
                0 <= r < N ==> (#[trigger] rows@[r])@ == Seq::new(
                    N as nat,
                    |c: int| self.cells@[r * N + c].symbol,
                ),
    {
        let mut rows: Vec<Vec<char>> = Vec::new();
        let mut r: usize = 0;
        while r < N
            invariant
                self.wf(),
                r <= N,
                rows@.len() == r,
                forall|i: int|
                    0 <= i < r ==> (#[trigger] rows@[i])@ == Seq::new(
                        N as nat,
                        |c: int| self.cells@[i * N + c].symbol,
                    ),
            decreases N - r,
        {
            let mut row: Vec<char> = Vec::new();
            let mut c: usize = 0;
            while c < N
                invariant
                    self.wf(),
                    r < N,
                    c <= N,
                    row@ == Seq::new(c as nat, |t: int| self.cells@[r * N + t].symbol),
                decreases N - c,
            {
                row.push(self.cells[r * N + c].symbol);
                c += 1;
                assert(row@ =~= Seq::new(c as nat, |t: int| self.cells@[r * N + t].symbol));
            }
            rows.push(row);
            r += 1;
        }
        rows
    }
}

} // verus!

verus! {

/// Claiming a run that fits and then letting it go gives back exactly the cells
/// before the claim, counts and symbols alike.
pub proof fn lemma_claim_release_round_trip(cells: Seq<Cell>, pat: Seq<char>, anchor: Pos, dir: Dir)
    requires
        cells.len() == N * N,
        anchor.valid(),
        pat.len() <= N,
        fits(cells, pat, anchor, dir),
        forall|j: int| 0 <= j < cells.len() && #[trigger] cells[j].count == 0 ==> cells[j] == empty_cell(),
        forall|j: int| on_run(anchor, dir, pat.len() as int, j) ==> #[trigger] cells[j].count < u64::MAX,
    ensures
        released(claimed(cells, pat, anchor, dir), pat.len() as int, anchor, dir) == cells,
        (forall|j: int| on_run(anchor, dir, pat.len() as int, j) ==> #[trigger] cells[j].count == 0) ==> forall|j: int|
            on_run(anchor, dir, pat.len() as int, j) ==> #[trigger] claimed(cells, pat, anchor, dir)[j].count == 1,
{
    let after = released(claimed(cells, pat, anchor, dir), pat.len() as int, anchor, dir);
    assert forall|j: int| 0 <= j < cells.len() implies #[trigger] after[j] == cells[j] by {
        if on_run(anchor, dir, pat.len() as int, j) {
            lemma_cell_of_offset(anchor, dir, j);
            let k = offset_of(anchor, dir, j);
            assert(cells[cell_at(anchor, dir, k)] == cells[j]);
        }
    }
    assert(after =~= cells);
}

/// Letting go of a run whose cells all agree with `pat`, and claiming it again for
/// `pat`, gives back exactly the cells before.
pub proof fn lemma_release_claim_round_trip(cells: Seq<Cell>, pat: Seq<char>, anchor: Pos, dir: Dir)
    requires
        cells.len() == N * N,
        anchor.valid(),
        pat.len() <= N,
        forall|j: int|
            #[trigger] on_run(anchor, dir, pat.len() as int, j) ==> cells[j].count > 0
                && cells[j].symbol == pat[offset_of(anchor, dir, j)],
    ensures
        fits(released(cells, pat.len() as int, anchor, dir), pat, anchor, dir),
        claimed(released(cells, pat.len() as int, anchor, dir), pat, anchor, dir) == cells,
{
    let mid = released(cells, pat.len() as int, anchor, dir);
    assert forall|k: int| 0 <= k < pat.len() implies {
        let c = #[trigger] mid[cell_at(anchor, dir, k)];
        c.count == 0 || c.symbol == pat[k]
    } by {
        lemma_offset_of_cell(anchor, dir, k);
        assert(on_run(anchor, dir, pat.len() as int, cell_at(anchor, dir, k)));
    }
    let after = claimed(mid, pat, anchor, dir);
    assert forall|j: int| 0 <= j < cells.len() implies #[trigger] after[j] == cells[j] by {
        if on_run(anchor, dir, pat.len() as int, j) {
        }
    }
    assert(after =~= cells);
}

} // verus!
