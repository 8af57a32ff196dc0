use vstd::prelude::*;

verus! {

/// Side length of the square, edge-wrapping grid.
pub const N: usize = 20;

/// A cell position: row `r` and column `c`, both below `N` when valid.
#[derive(Clone, Copy, Debug, PartialEq, Eq, Structural)]
pub struct Pos {
    pub r: u8,
    pub c: u8,
}

/// The two axis directions along which a pattern can run.
#[derive(Clone, Copy, Debug, PartialEq, Eq, Structural)]
pub enum Dir {
    /// Left to right along a row.
    H,
    /// Top to bottom along a column.
    V,
}

impl Pos {
    pub open spec fn valid(self) -> bool {
        self.r < N && self.c < N
    }

    /// Flat index of the cell in row-major order.
    pub open spec fn index(self) -> int {
        self.r * N + self.c
    }

    pub fn new(r: u8, c: u8) -> (p: Pos)
        ensures
            p.r == r,
            p.c == c,
    {
        Pos { r, c }
    }

    /// The neighbouring position one step along `dir`, wrapping at the border.
    pub fn next(self, dir: Dir) -> (p: Pos)
        requires
            self.valid(),
        ensures
            p.valid(),
            p == step_from(self, dir, 1),
    {
        proof {
            reveal(step_from);
        }
        match dir {
            Dir::H => Pos { r: self.r, c: (self.c + 1) % (N as u8) },
            Dir::V => Pos { r: (self.r + 1) % (N as u8), c: self.c },
        }
    }

    pub fn flat_index(self) -> (i: usize)
        requires
            self.valid(),
        ensures
            i == self.index(),
            i < N * N,
    {
        self.r as usize * N + self.c as usize
    }
}

/// The position `k` steps from `anchor` along `dir`, wrapping modulo `N`.
#[verifier::opaque]
pub open spec fn step_from(anchor: Pos, dir: Dir, k: int) -> Pos {
    match dir {
        Dir::H => Pos { r: anchor.r, c: ((anchor.c + k) % (N as int)) as u8 },
        Dir::V => Pos { r: ((anchor.r + k) % (N as int)) as u8, c: anchor.c },
    }
}

/// Flat index of the `k`-th cell of the run that starts at `anchor` along `dir`.
pub open spec fn cell_at(anchor: Pos, dir: Dir, k: int) -> int {
    step_from(anchor, dir, k).index()
}

/// The step count at which the run from `anchor` along `dir` reaches flat index
/// `j`, in `[0, N)`; `-1` where the run never passes `j`.
#[verifier::opaque]
pub open spec fn offset_of(anchor: Pos, dir: Dir, j: int) -> int {
    match dir {
        Dir::H => if j / (N as int) == anchor.r {
            (j % (N as int) - anchor.c + N) % (N as int)
        } else {
            -1
        },
        Dir::V => if j % (N as int) == anchor.c {
            (j / (N as int) - anchor.r + N) % (N as int)
        } else {
            -1
        },
    }
}

/// The run passes through each cell at most once, and `offset_of` inverts `cell_at`.
pub proof fn lemma_offset_of_cell(anchor: Pos, dir: Dir, k: int)
    requires
        anchor.valid(),
        0 <= k < N,
    ensures
        step_from(anchor, dir, k).valid(),
        0 <= cell_at(anchor, dir, k) < N * N,
        offset_of(anchor, dir, cell_at(anchor, dir, k)) == k,
{
    reveal(step_from);
    reveal(offset_of);
}

/// One more step from the `k`-th position gives the `k + 1`-th.
pub proof fn lemma_step_succ(anchor: Pos, dir: Dir, k: int)
    requires
        anchor.valid(),
        0 <= k,
    ensures
        step_from(anchor, dir, k).valid(),
        step_from(step_from(anchor, dir, k), dir, 1) == step_from(anchor, dir, k + 1),
{
    reveal(step_from);
}

/// The run starts at its anchor.
pub proof fn lemma_step_zero(anchor: Pos, dir: Dir)
    requires
        anchor.valid(),
    ensures
        step_from(anchor, dir, 0) == anchor,
{
    reveal(step_from);
}

/// Every cell whose offset lies in `[0, N)` is the cell at that offset.
pub proof fn lemma_cell_of_offset(anchor: Pos, dir: Dir, j: int)
    requires
        anchor.valid(),
        0 <= j < N * N,
        offset_of(anchor, dir, j) >= 0,
    ensures
        offset_of(anchor, dir, j) < N,
        cell_at(anchor, dir, offset_of(anchor, dir, j)) == j,
{
    reveal(step_from);
    reveal(offset_of);
    let n = N as int;
    let q = j / n;
    let m = j % n;
    assert(j == q * n + m && 0 <= m < n && 0 <= q < n) by (nonlinear_arith)
        requires
            0 <= j < n * n,
            n == 20,
            q == j / n,
            m == j % n,
    ;
    match dir {
        Dir::H => {
            let o = (m - anchor.c + n) % n;
            assert((anchor.c + o) % n == m);
        },
        Dir::V => {
            let o = (q - anchor.r + n) % n;
            assert((anchor.r + o) % n == q);
        },
    }
}

} // verus!
