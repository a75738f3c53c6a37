use crate::encode::{all_kept, cell_rules_present, encode};
use crate::fill::fill_grid;
use crate::grid::{
    clues_within, has_unique_completion, is_completion, is_solution,
    lemma_fewer_clues_keep_completions, lemma_full_grid_unique, lemma_one_hole_unique,
    no_completion, several_completions, unique_completion, well_formed, Grid, CELLS,
};
use crate::oracle::{check_unique, Verdict};
use crate::random::{seeded_rng, shuffle};
use rand::rngs::StdRng;
use vstd::prelude::*;

verus! {

/// Why building or reducing a puzzle stopped.
#[derive(Debug, Clone, Copy, PartialEq, Eq, Structural)]
pub enum BoardError {
    /// A cell index outside 0 to 80.
    OutOfRange,
    /// The puzzle had no completion left.
    Unsolvable,
    /// The SAT solver failed.
    SolverFailure,
}

/// A puzzle session for one seed: the full grid drawn from the seed and the
/// puzzle reduced from it.
pub struct SudokuBoard {
    seed: u64,
    solution: Grid,
    puzzle: Grid,
}

impl SudokuBoard {
    pub closed spec fn seed_view(&self) -> u64 {
        self.seed
    }

    pub closed spec fn solution_view(&self) -> Seq<u8> {
        self.solution@
    }

    pub closed spec fn puzzle_view(&self) -> Seq<u8> {
        self.puzzle@
    }

    /// Both grids have 81 cells, each 0 to 9.
    pub open spec fn wf(&self) -> bool {
        well_formed(self.solution_view()) && well_formed(self.puzzle_view())
    }

    /// A session for `seed`, with both grids still empty.
    pub fn new(seed: u64) -> (b: SudokuBoard)
        ensures
            b.wf(),
            b.seed_view() == seed,
            b.solution_view() == Seq::new(81, |p: int| 0u8),
            b.puzzle_view() == Seq::new(81, |p: int| 0u8),
    {
        SudokuBoard { seed, solution: Grid::new(), puzzle: Grid::new() }
    }

    pub fn seed(&self) -> (r: u64)
        ensures
            r == self.seed_view(),
    {
        self.seed
    }

    pub fn solution(&self) -> (r: &Grid)
        ensures
            r@ == self.solution_view(),
    {
        &self.solution
    }

    pub fn puzzle(&self) -> (r: &Grid)
        ensures
            r@ == self.puzzle_view(),
    {
        &self.puzzle
    }

    /// The clauses that state the Sudoku rules and the current puzzle's clues.
    pub fn board_to_smt(&self) -> (cnf: Vec<Vec<i32>>)
        requires
            self.wf(),
        ensures
            all_kept(self.puzzle_view(), cnf@),
            forall|p: int| 0 <= p < 81 ==> #[trigger] cell_rules_present(self.puzzle_view(), cnf@, p),
    {
        encode(&self.puzzle)
    }

    /// Tries to take the clue at cell `pos` (row-major) out of the puzzle:
    /// the removal is kept when the puzzle still has exactly one completion,
    /// and undone otherwise. Returns whether the clue was removed.
    pub fn remove_pos(&mut self, pos: usize) -> (r: Result<bool, BoardError>)
        requires
            old(self).wf(),
        ensures
            final(self).wf(),
            final(self).seed_view() == old(self).seed_view(),
            final(self).solution_view() == old(self).solution_view(),
            (pos >= 81) == (r == Err::<bool, BoardError>(BoardError::OutOfRange)),
            pos < 81 && old(self).puzzle_view()[pos as int] == 0 ==> r == Ok::<bool, BoardError>(false),
            r == Ok::<bool, BoardError>(true) ==> old(self).puzzle_view()[pos as int] != 0
                && final(self).puzzle_view() == old(self).puzzle_view().update(pos as int, 0)
                && has_unique_completion(final(self).puzzle_view()),
            r != Ok::<bool, BoardError>(true) ==> final(self).puzzle_view() == old(self).puzzle_view(),
            r == Ok::<bool, BoardError>(false) && pos < 81 && old(self).puzzle_view()[pos as int] != 0
                ==> several_completions(old(self).puzzle_view().update(pos as int, 0)),
            r == Err::<bool, BoardError>(BoardError::Unsolvable) ==> no_completion(
                old(self).puzzle_view().update(pos as int, 0),
            ),
            pos < 81 && old(self).puzzle_view()[pos as int] != 0 && has_unique_completion(
                old(self).puzzle_view().update(pos as int, 0),
            ) ==> r == Ok::<bool, BoardError>(true) || r == Err::<bool, BoardError>(
                BoardError::SolverFailure,
            ),
            pos < 81 && old(self).puzzle_view()[pos as int] != 0 && no_completion(
                old(self).puzzle_view().update(pos as int, 0),
            ) ==> r == Err::<bool, BoardError>(BoardError::Unsolvable) || r == Err::<bool, BoardError>(
                BoardError::SolverFailure,
            ),
            pos < 81 && old(self).puzzle_view()[pos as int] != 0 && several_completions(
                old(self).puzzle_view().update(pos as int, 0),
            ) ==> r == Ok::<bool, BoardError>(false) || r == Err::<bool, BoardError>(
                BoardError::SolverFailure,
            ),
    {
        if pos >= CELLS {
            return Err(BoardError::OutOfRange);
        }
        let value = self.puzzle.cell(pos);
        if value == 0 {
            return Ok(false);
        }
        let mut trial = self.puzzle.duplicate();
        trial.set_cell(pos, 0);
        match check_unique(&trial) {
            Verdict::Unique(m) => {
                self.puzzle = trial;
                Ok(true)
            },
            Verdict::NotUnique => Ok(false),
            Verdict::Unsolvable => Err(BoardError::Unsolvable),
            Verdict::SolverFailure => Err(BoardError::SolverFailure),
        }
    }

    fn fill_with(&mut self, rng: &mut StdRng)
        requires
            old(self).wf(),
        ensures
            final(self).wf(),
            final(self).seed_view() == old(self).seed_view(),
            is_solution(final(self).solution_view()),
            final(self).puzzle_view() == final(self).solution_view(),
    {
        let solution = fill_grid(rng);
        self.solution = solution.duplicate();
        self.puzzle = solution;
    }

    /// Fills the solution with a full grid drawn from the seed, by randomized
    /// backtracking, and resets the puzzle to that full grid.
    pub fn fill_board(&mut self)
        requires
            old(self).wf(),
        ensures
            final(self).wf(),
            final(self).seed_view() == old(self).seed_view(),
            is_solution(final(self).solution_view()),
            final(self).puzzle_view() == final(self).solution_view(),
    {
        let mut rng = seeded_rng(self.seed);
        self.fill_with(&mut rng);
    }

    /// Builds the session's grids: a full grid by randomized backtracking,
    /// then a puzzle by trying to remove each clue once, in an order drawn
    /// from the same seeded generator. Returns copies of the solution and of
    /// the puzzle.
    pub fn generate(&mut self) -> (r: Result<(Grid, Grid), BoardError>)
        requires
            old(self).wf(),
        ensures
            final(self).wf(),
            final(self).seed_view() == old(self).seed_view(),
            r is Err ==> r == Err::<(Grid, Grid), BoardError>(BoardError::SolverFailure),
            is_solution(final(self).solution_view()),
            clues_within(final(self).puzzle_view(), final(self).solution_view()),
            unique_completion(final(self).puzzle_view(), final(self).solution_view()),
            r matches Ok((s, p)) ==> {
                &&& s@ == final(self).solution_view()
                &&& p@ == final(self).puzzle_view()
                &&& s.wf() && p.wf()
                &&& is_solution(s@)
                &&& clues_within(p@, s@)
                &&& unique_completion(p@, s@)
                &&& forall|pos: int|
                    0 <= pos < 81 && #[trigger] p@[pos] != 0 ==> several_completions(
                        p@.update(pos, 0),
                    )
                &&& exists|pos: int| 0 <= pos < 81 && #[trigger] p@[pos] == 0
            },
    {
        let mut rng = seeded_rng(self.seed);
        self.fill_with(&mut rng);
        let ghost sol = self.solution_view();
        proof {
            lemma_full_grid_unique(sol);
            assert(clues_within(sol, sol));
        }
        let mut order: Vec<usize> = Vec::new();
        let mut k: usize = 0;
        while k < CELLS
            invariant
                k <= 81,
                order@.len() == k,
                forall|j: int| 0 <= j < k ==> #[trigger] order@[j] == j,
            decreases 81 - k,
        {
            order.push(k);
            k = k + 1;
        }
        let ghost sorted = order@;
        shuffle(&mut order, &mut rng);
        proof {
            sorted.to_multiset_ensures();
            order@.to_multiset_ensures();
            assert forall|pos: usize| pos < 81 implies order@.contains(pos) by {
                assert(sorted[pos as int] == pos);
                assert(sorted.contains(pos));
                assert(order@.to_multiset().count(pos) == sorted.to_multiset().count(pos));
            }
            assert forall|j: int| 0 <= j < order@.len() implies #[trigger] order@[j] < 81 by {
                let x = order@[j];
                assert(order@.contains(x));
                assert(order@.to_multiset().count(x) == sorted.to_multiset().count(x));
                assert(sorted.contains(x));
            }
        }
        let mut i: usize = 0;
        while i < order.len()
            invariant
                self.wf(),
                self.seed_view() == old(self).seed_view(),
                self.solution_view() == sol,
                is_solution(sol),
                clues_within(self.puzzle_view(), sol),
                unique_completion(self.puzzle_view(), sol),
                i <= order@.len(),
                forall|pos: usize| pos < 81 ==> order@.contains(pos),
                forall|j: int| 0 <= j < order@.len() ==> #[trigger] order@[j] < 81,
                forall|j: int|
                    0 <= j < i && #[trigger] order@[j] < 81 && self.puzzle_view()[order@[j] as int]
                        != 0 ==> several_completions(
                        self.puzzle_view().update(order@[j] as int, 0),
                    ),
            decreases order@.len() - i,
        {
            let pos = order[i];
            let ghost before = self.puzzle_view();
            let outcome = self.remove_pos(pos);
            match outcome {
                Ok(removed) => {
                    proof {
                        let after = self.puzzle_view();
                        if removed {
                            assert(clues_within(after, sol));
                            assert(is_completion(after, sol));
                            let m = choose|m: Seq<u8>| unique_completion(after, m);
                            assert(sol == m);
                            assert forall|j: int|
                                0 <= j < i + 1 && #[trigger] order@[j] < 81 && after[order@[j] as int]
                                    != 0 implies several_completions(after.update(order@[j] as int, 0)) by {
                                let o = order@[j] as int;
                                if j < i {
                                    assert(before[o] != 0);
                                    assert(clues_within(after.update(o, 0), before.update(o, 0)));
                                    lemma_fewer_clues_keep_completions(after.update(o, 0), before.update(o, 0));
                                }
                            }
                        }
                    }
                },
                Err(e) => {
                    proof {
                        if e == BoardError::Unsolvable {
                            let t = before.update(pos as int, 0);
                            assert(clues_within(t, sol));
                            assert(is_completion(t, sol));
                        }
                    }
                    assert(e == BoardError::SolverFailure);
                    return Err(e);
                },
            }
            i = i + 1;
        }
        proof {
            let p = self.puzzle_view();
            assert forall|pos: int| 0 <= pos < 81 && #[trigger] p[pos] != 0 implies several_completions(
                p.update(pos, 0),
            ) by {
                assert(order@.contains(pos as usize));
                let j = choose|j: int| 0 <= j < order@.len() && order@[j] == pos as usize;
            }
            if forall|pos: int| 0 <= pos < 81 ==> #[trigger] p[pos] != 0 {
                assert forall|q: int| 0 <= q < 81 implies #[trigger] p[q] == sol[q] by {
                    assert(p[q] != 0);
                }
                assert(p =~= sol);
                assert(p[0] != 0);
                lemma_one_hole_unique(sol, 0);
                let (c1, c2) = choose|c1: Seq<u8>, c2: Seq<u8>|
                    is_completion(p.update(0, 0), c1) && is_completion(p.update(0, 0), c2) && c1 != c2;
                assert(c1 == sol && c2 == sol);
            }
        }
        Ok((self.solution.duplicate(), self.puzzle.duplicate()))
    }
}

} // verus!
