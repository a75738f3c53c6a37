use vstd::prelude::*;
use vstd::set_lib::{lemma_int_range, lemma_len_subset, lemma_subset_equality, set_int_range};

verus! {

/// Number of cells of a board (9 rows of 9 columns, row-major).
pub const CELLS: usize = 81;

/// Row of cell `p` in row-major order.
pub open spec fn row_of(p: int) -> int {
    p / 9
}

/// Column of cell `p` in row-major order.
pub open spec fn col_of(p: int) -> int {
    p % 9
}

/// Index of the 3x3 box holding cell `p`.
pub open spec fn box_of(p: int) -> int {
    (p / 27) * 3 + (p % 9) / 3
}

pub open spec fn is_cell(p: int) -> bool {
    0 <= p < 81
}

/// Two distinct cells that share a row, a column or a box.
pub open spec fn peers(p: int, q: int) -> bool {
    p != q && (row_of(p) == row_of(q) || col_of(p) == col_of(q) || box_of(p) == box_of(q))
}

/// 81 cells, each holding 0 (empty) or a digit 1 to 9.
pub open spec fn well_formed(g: Seq<u8>) -> bool {
    g.len() == 81 && forall|p: int| 0 <= p < 81 ==> #[trigger] g[p] <= 9
}

/// No row, column or box holds the same non-zero digit twice.
pub open spec fn locally_valid(g: Seq<u8>) -> bool {
    forall|p: int, q: int|
        is_cell(p) && is_cell(q) && peers(p, q) && #[trigger] g[p] != 0 ==> g[p] != #[trigger] g[q]
}

/// A full grid: every cell holds a digit and no unit repeats one, so that
/// every row, column and box holds each of 1 to 9 exactly once.
pub open spec fn is_solution(g: Seq<u8>) -> bool {
    g.len() == 81 && (forall|p: int| 0 <= p < 81 ==> 1 <= #[trigger] g[p] <= 9) && locally_valid(g)
}

/// `c` keeps every clue of `puzzle`.
pub open spec fn agrees(puzzle: Seq<u8>, c: Seq<u8>) -> bool {
    forall|p: int| 0 <= p < 81 && #[trigger] puzzle[p] != 0 ==> c[p] == puzzle[p]
}

/// `c` is a full grid that completes `puzzle`.
pub open spec fn is_completion(puzzle: Seq<u8>, c: Seq<u8>) -> bool {
    is_solution(c) && agrees(puzzle, c)
}

/// `m` completes `puzzle`, and no other grid does.
pub open spec fn unique_completion(puzzle: Seq<u8>, m: Seq<u8>) -> bool {
    is_completion(puzzle, m) && forall|c: Seq<u8>| #[trigger] is_completion(puzzle, c) ==> c == m
}

/// `puzzle` has exactly one completion.
pub open spec fn has_unique_completion(puzzle: Seq<u8>) -> bool {
    exists|m: Seq<u8>| unique_completion(puzzle, m)
}

/// `puzzle` has at least two different completions.
pub open spec fn several_completions(puzzle: Seq<u8>) -> bool {
    exists|c1: Seq<u8>, c2: Seq<u8>|
        is_completion(puzzle, c1) && is_completion(puzzle, c2) && c1 != c2
}

/// `puzzle` has no completion at all.
pub open spec fn no_completion(puzzle: Seq<u8>) -> bool {
    forall|c: Seq<u8>| !#[trigger] is_completion(puzzle, c)
}

/// Every clue of `small` is a clue of `big` with the same digit.
pub open spec fn clues_within(small: Seq<u8>, big: Seq<u8>) -> bool {
    forall|p: int| 0 <= p < 81 && #[trigger] small[p] != 0 ==> big[p] == small[p]
}

/// A full grid is its own one completion.
pub proof fn lemma_full_grid_unique(g: Seq<u8>)
    requires
        is_solution(g),
    ensures
        unique_completion(g, g),
{
    assert forall|c: Seq<u8>| #[trigger] is_completion(g, c) implies c == g by {
        assert forall|p: int| 0 <= p < 81 implies #[trigger] c[p] == g[p] by {
            assert(g[p] != 0);
        }
        assert(c =~= g);
    }
}

/// A puzzle has no completion, exactly one, or several, and only one of these.
pub proof fn lemma_completion_counts_exclusive(puzzle: Seq<u8>)
    ensures
        has_unique_completion(puzzle) ==> !several_completions(puzzle) && !no_completion(puzzle),
        several_completions(puzzle) ==> !no_completion(puzzle),
        no_completion(puzzle) || has_unique_completion(puzzle) || several_completions(puzzle),
{
    if has_unique_completion(puzzle) {
        let m = choose|m: Seq<u8>| unique_completion(puzzle, m);
        assert(is_completion(puzzle, m));
        if several_completions(puzzle) {
            let (c1, c2) = choose|c1: Seq<u8>, c2: Seq<u8>|
                is_completion(puzzle, c1) && is_completion(puzzle, c2) && c1 != c2;
            assert(c1 == m && c2 == m);
        }
    }
    if several_completions(puzzle) {
        let (c1, c2) = choose|c1: Seq<u8>, c2: Seq<u8>|
            is_completion(puzzle, c1) && is_completion(puzzle, c2) && c1 != c2;
        assert(is_completion(puzzle, c1));
    }
    if !no_completion(puzzle) && !several_completions(puzzle) {
        let m = choose|m: Seq<u8>| is_completion(puzzle, m);
        assert forall|c: Seq<u8>| #[trigger] is_completion(puzzle, c) implies c == m by {
            if c != m {
                assert(is_completion(puzzle, c) && is_completion(puzzle, m) && c != m);
            }
        }
        assert(unique_completion(puzzle, m));
    }
}

/// Taking clues away keeps every completion: a puzzle whose clues lie
/// within those of one with two completions has two completions too.
pub proof fn lemma_fewer_clues_keep_completions(small: Seq<u8>, big: Seq<u8>)
    requires
        clues_within(small, big),
        several_completions(big),
    ensures
        several_completions(small),
{
    let (c1, c2) = choose|c1: Seq<u8>, c2: Seq<u8>|
        is_completion(big, c1) && is_completion(big, c2) && c1 != c2;
    assert(is_completion(small, c1));
    assert(is_completion(small, c2));
}

/// Nine distinct digits use up all of 1 to 9: a digit that differs from
/// eight of them is the ninth.
proof fn lemma_ninth_digit(t: Seq<int>, h: int, x: int)
    requires
        t.len() == 9,
        forall|i: int| 0 <= i < 9 ==> 1 <= #[trigger] t[i] <= 9,
        forall|i: int, j: int| 0 <= i < 9 && 0 <= j < 9 && i != j ==> #[trigger] t[i] != #[trigger] t[j],
        0 <= h < 9,
        1 <= x <= 9,
        forall|k: int| 0 <= k < 9 && k != h ==> #[trigger] t[k] != x,
    ensures
        x == t[h],
{
    assert(t.no_duplicates());
    t.unique_seq_to_set();
    let r = set_int_range(1, 10);
    lemma_int_range(1, 10);
    assert(t.to_set().subset_of(r));
    lemma_len_subset(t.to_set(), r);
    lemma_subset_equality(t.to_set(), r);
    assert(r.contains(x));
    assert(t.to_set().contains(x));
    let k = choose|k: int| 0 <= k < 9 && t[k] == x;
}

/// A full grid with one cell emptied still has only itself as completion.
pub proof fn lemma_one_hole_unique(g: Seq<u8>, pos: int)
    requires
        is_solution(g),
        0 <= pos < 81,
    ensures
        unique_completion(g.update(pos, 0), g),
{
    let h = g.update(pos, 0);
    assert forall|q: int| 0 <= q < 81 && #[trigger] h[q] != 0 implies g[q] == h[q] by {}
    assert forall|c: Seq<u8>| #[trigger] is_completion(h, c) implies c == g by {
        let row = pos / 9;
        let t = Seq::new(9, |k: int| g[row * 9 + k] as int);
        assert forall|i: int, j: int| 0 <= i < 9 && 0 <= j < 9 && i != j implies #[trigger] t[i]
            != #[trigger] t[j] by {
            assert(peers(row * 9 + i, row * 9 + j));
            assert(g[row * 9 + i] != 0);
        }
        assert forall|i: int| 0 <= i < 9 implies 1 <= #[trigger] t[i] <= 9 by {
            assert(0 <= row * 9 + i < 81);
        }
        assert forall|k: int| 0 <= k < 9 && k != pos % 9 implies #[trigger] t[k] != c[pos] as int by {
            let q = row * 9 + k;
            assert(peers(pos, q));
            assert(h[q] != 0);
            assert(c[pos] != 0);
        }
        lemma_ninth_digit(t, pos % 9, c[pos] as int);
        assert forall|q: int| 0 <= q < 81 implies #[trigger] c[q] == g[q] by {
            if q != pos {
                assert(h[q] != 0);
            }
        }
        assert(c =~= g);
    }
}

/// Why a grid access was refused.
#[derive(Debug, Clone, Copy, PartialEq, Eq, Structural)]
pub enum GridError {
    OutOfRange,
}

/// A 9x9 Sudoku grid; 0 marks an empty cell.
#[derive(Debug, Clone)]
pub struct Grid {
    cells: Vec<u8>,
}

impl View for Grid {
    type V = Seq<u8>;

    closed spec fn view(&self) -> Seq<u8> {
        self.cells@
    }
}

pub fn cell_of(row: usize, col: usize) -> (p: usize)
    requires
        row < 9,
        col < 9,
    ensures
        p == row * 9 + col,
        p < 81,
        row_of(p as int) == row,
        col_of(p as int) == col,
{
    row * 9 + col
}

/// Whether cells `p` and `q` are distinct and share a row, column or box.
pub fn are_peers(p: usize, q: usize) -> (r: bool)
    requires
        p < 81,
        q < 81,
    ensures
        r == peers(p as int, q as int),
{
    p != q && (p / 9 == q / 9 || p % 9 == q % 9 || ((p / 27) * 3 + (p % 9) / 3) == ((q / 27) * 3
        + (q % 9) / 3))
}

impl Grid {
    pub open spec fn wf(&self) -> bool {
        well_formed(self@)
    }

    /// The empty grid.
    pub fn new() -> (g: Grid)
        ensures
            g.wf(),
            g@ == Seq::new(81, |p: int| 0u8),
    {
        let mut cells: Vec<u8> = Vec::new();
        let mut i: usize = 0;
        while i < CELLS
            invariant
                i <= 81,
                cells@ == Seq::new(i as nat, |p: int| 0u8),
            decreases 81 - i,
        {
            cells.push(0);
            i = i + 1;
        }
        Grid { cells }
    }

    /// A copy with the same cells.
    pub fn duplicate(&self) -> (g: Grid)
        ensures
            g@ == self@,
    {
        Grid { cells: self.cells.clone() }
    }

    /// The 81 cell values in row-major order.
    pub fn values(&self) -> (r: Vec<u8>)
        ensures
            r@ == self@,
    {
        self.cells.clone()
    }

    /// The value at cell `p` (row-major index).
    pub fn cell(&self, p: usize) -> (v: u8)
        requires
            self.wf(),
            p < 81,
        ensures
            v == self@[p as int],
            v <= 9,
    {
        self.cells[p]
    }

    /// Overwrites cell `p` (row-major index).
    pub fn set_cell(&mut self, p: usize, v: u8)
        requires
            old(self).wf(),
            p < 81,
            v <= 9,
        ensures
            final(self).wf(),
            final(self)@ == old(self)@.update(p as int, v),
    {
        self.cells.set(p, v);
    }

    /// The value at (`row`, `col`).
    pub fn get(&self, row: usize, col: usize) -> (r: Result<u8, GridError>)
        requires
            self.wf(),
        ensures
            row < 9 && col < 9 ==> r == Ok::<u8, GridError>(self@[row * 9 + col]),
            !(row < 9 && col < 9) ==> r == Err::<u8, GridError>(GridError::OutOfRange),
    {
        if row >= 9 || col >= 9 {
            return Err(GridError::OutOfRange);
        }
        Ok(self.cell(cell_of(row, col)))
    }

    /// Overwrites the value at (`row`, `col`) with `value` (0 empties it).
    pub fn set(&mut self, row: usize, col: usize, value: u8) -> (r: Result<(), GridError>)
        requires
            old(self).wf(),
        ensures
            final(self).wf(),
            row < 9 && col < 9 && value <= 9 ==> r is Ok && final(self)@ == old(self)@.update(
                row * 9 + col,
                value,
            ),
            !(row < 9 && col < 9 && value <= 9) ==> r == Err::<(), GridError>(
                GridError::OutOfRange,
            ) && final(self)@ == old(self)@,
    {
        if row >= 9 || col >= 9 || value > 9 {
            return Err(GridError::OutOfRange);
        }
        self.set_cell(cell_of(row, col), value);
        Ok(())
    }

    /// Whether no row, column or box holds the same non-zero digit twice.
    pub fn is_locally_valid(&self) -> (r: bool)
        requires
            self.wf(),
        ensures
            r == locally_valid(self@),
    {
        let mut p: usize = 0;
        while p < CELLS
            invariant
                p <= 81,
                self.wf(),
                forall|a: int, b: int|
                    0 <= a < p && is_cell(b) && peers(a, b) && #[trigger] self@[a] != 0
                        ==> self@[a] != #[trigger] self@[b],
            decreases 81 - p,
        {
            let v = self.cell(p);
            let mut q: usize = 0;
            while q < CELLS
                invariant
                    p < 81,
                    q <= 81,
                    self.wf(),
                    v == self@[p as int],
                    forall|b: int| 0 <= b < q && peers(p as int, b) && v != 0 ==> v != #[trigger] self@[b],
                decreases 81 - q,
            {
                if v != 0 && are_peers(p, q) && self.cell(q) == v {
                    return false;
                }
                q = q + 1;
            }
            p = p + 1;
        }
        true
    }

    /// Whether every cell holds a digit and no unit repeats one.
    pub fn is_full_solution(&self) -> (r: bool)
        requires
            self.wf(),
        ensures
            r == is_solution(self@),
    {
        let mut p: usize = 0;
        while p < CELLS
            invariant
                p <= 81,
                self.wf(),
                forall|a: int| 0 <= a < p ==> 1 <= #[trigger] self@[a] <= 9,
            decreases 81 - p,
        {
            if self.cell(p) == 0 {
                return false;
            }
            p = p + 1;
        }
        self.is_locally_valid()
    }

    /// Whether this grid completes `puzzle`.
    pub fn completes(&self, puzzle: &Grid) -> (r: bool)
        requires
            self.wf(),
            puzzle.wf(),
        ensures
            r == is_completion(puzzle@, self@),
    {
        let mut p: usize = 0;
        while p < CELLS
            invariant
                p <= 81,
                self.wf(),
                puzzle.wf(),
                forall|a: int| 0 <= a < p && #[trigger] puzzle@[a] != 0 ==> self@[a] == puzzle@[a],
            decreases 81 - p,
        {
            let v = puzzle.cell(p);
            if v != 0 && self.cell(p) != v {
                return false;
            }
            p = p + 1;
        }
        self.is_full_solution()
    }

    /// Whether both grids hold the same cells.
    pub fn same_cells(&self, other: &Grid) -> (r: bool)
        requires
            self.wf(),
            other.wf(),
        ensures
            r == (self@ == other@),
    {
        let mut p: usize = 0;
        while p < CELLS
            invariant
                p <= 81,
                self.wf(),
                other.wf(),
                forall|a: int| 0 <= a < p ==> #[trigger] self@[a] == other@[a],
            decreases 81 - p,
        {
            if self.cell(p) != other.cell(p) {
                return false;
            }
            p = p + 1;
        }
        assert(self@ =~= other@);
        true
    }
}

} // verus!
